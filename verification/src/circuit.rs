//! The circuit: an ordered list of operations on `n_qubits`, built by the
//! builder methods and the front ends, and drawn as an ASCII diagram.
//!
//! Gates are kept by name, with their angles as expressions, so a circuit is
//! exact data; the matrices they stand for are computed where it is run.
use vstd::prelude::*;
use crate::expr::{Angle, AngleV};
use crate::text::{chars_of, decimal, push_all, push_decimal, string_of};
pub use crate::export::ExportError;

verus! {

/// A gate's diagram label, which also names it on export.
#[derive(Debug, Clone, Copy, PartialEq, Eq, Structural)]
pub enum Label {
    I, H, X, Y, Z, S, T, SDG, TDG, SX, SXDG, P, U3, U2, RX, RY, RZ,
    /// An arbitrary (controlled) unitary.
    U,
    CRZ, CP, CU3,
    /// An arbitrary noise channel.
    N,
    DEP, BF, PF, AD, PD,
}

/// A 2x2 complex matrix, entry by entry as real and imaginary parts, each the
/// decimal text of a number: `[re00, im00, re01, im01, re10, im10, re11, im11]`.
#[derive(Debug)]
pub struct Matrix {
    /// The eight numbers.
    pub parts: Vec<Vec<char>>,
}

/// A single-qubit gate.
#[derive(Debug)]
pub enum Gate {
    I, H, X, Y, Z, S, T, Sdg, Tdg, SX, SXdg,
    /// Phase gate `diag(1, e^{i lambda})`.
    P(Angle),
    /// `u2(phi, lambda)`
    U2(Angle, Angle),
    /// `u3(theta, phi, lambda)`
    U3(Angle, Angle, Angle),
    /// Rotation about X.
    RX(Angle),
    /// Rotation about Y.
    RY(Angle),
    /// Rotation about Z.
    RZ(Angle),
    /// An arbitrary matrix.
    Matrix(Matrix),
}

/// An operation that acts on the quantum register alone.
#[derive(Debug)]
pub enum GateOp {
    /// A single-qubit gate.
    Single { gate: Gate, target: usize, label: Label },
    /// A gate on `target` when `control` is |1>.
    Controlled { gate: Gate, control: usize, target: usize, label: Label },
    /// Exchange two qubits.
    Swap { a: usize, b: usize },
    /// A gate on `target` when every control is |1>.
    MultiControlled { gate: Gate, controls: Vec<usize>, target: usize, label: Label },
    /// A noise channel, as Kraus operators.
    Kraus { ops: Vec<Matrix>, qubit: usize, label: Label },
}

/// One instruction of a circuit.
#[derive(Debug)]
pub enum Op {
    /// A gate or channel.
    Gate(GateOp),
    /// Measure `qubit` into classical bit `clbit`.
    Measure { qubit: usize, clbit: usize },
    /// Collapse `qubit` and force it to |0>.
    Reset { qubit: usize },
    /// Gates run only when the classical register equals `value`.
    Conditional { value: u64, ops: Vec<GateOp> },
}

/// The content of a [`Gate`].
pub enum GateV {
    I, H, X, Y, Z, S, T, Sdg, Tdg, SX, SXdg,
    P(AngleV),
    U2(AngleV, AngleV),
    U3(AngleV, AngleV, AngleV),
    RX(AngleV),
    RY(AngleV),
    RZ(AngleV),
    Matrix(Seq<Seq<char>>),
}

/// The content of a [`GateOp`].
pub enum GateOpV {
    Single { gate: GateV, target: usize, label: Label },
    Controlled { gate: GateV, control: usize, target: usize, label: Label },
    Swap { a: usize, b: usize },
    MultiControlled { gate: GateV, controls: Seq<usize>, target: usize, label: Label },
    Kraus { ops: Seq<Seq<Seq<char>>>, qubit: usize, label: Label },
}

/// The content of an [`Op`].
pub enum OpV {
    Gate(GateOpV),
    Measure { qubit: usize, clbit: usize },
    Reset { qubit: usize },
    Conditional { value: u64, ops: Seq<GateOpV> },
}

/// The content of a [`Circuit`].
pub struct CircuitV {
    /// Register size.
    pub n_qubits: usize,
    /// The operations, in order.
    pub ops: Seq<OpV>,
}

impl View for Matrix {
    type V = Seq<Seq<char>>;

    open spec fn view(&self) -> Seq<Seq<char>> {
        self.parts@.map_values(|p: Vec<char>| p@)
    }
}

impl View for Gate {
    type V = GateV;

    open spec fn view(&self) -> GateV {
        match self {
            Gate::I => GateV::I,
            Gate::H => GateV::H,
            Gate::X => GateV::X,
            Gate::Y => GateV::Y,
            Gate::Z => GateV::Z,
            Gate::S => GateV::S,
            Gate::T => GateV::T,
            Gate::Sdg => GateV::Sdg,
            Gate::Tdg => GateV::Tdg,
            Gate::SX => GateV::SX,
            Gate::SXdg => GateV::SXdg,
            Gate::P(a) => GateV::P(a@),
            Gate::U2(a, b) => GateV::U2(a@, b@),
            Gate::U3(a, b, c) => GateV::U3(a@, b@, c@),
            Gate::RX(a) => GateV::RX(a@),
            Gate::RY(a) => GateV::RY(a@),
            Gate::RZ(a) => GateV::RZ(a@),
            Gate::Matrix(m) => GateV::Matrix(m@),
        }
    }
}

impl View for GateOp {
    type V = GateOpV;

    open spec fn view(&self) -> GateOpV {
        match self {
            GateOp::Single { gate, target, label } => GateOpV::Single {
                gate: gate@,
                target: *target,
                label: *label,
            },
            GateOp::Controlled { gate, control, target, label } => GateOpV::Controlled {
                gate: gate@,
                control: *control,
                target: *target,
                label: *label,
            },
            GateOp::Swap { a, b } => GateOpV::Swap { a: *a, b: *b },
            GateOp::MultiControlled { gate, controls, target, label } => GateOpV::MultiControlled {
                gate: gate@,
                controls: controls@,
                target: *target,
                label: *label,
            },
            GateOp::Kraus { ops, qubit, label } => GateOpV::Kraus {
                ops: ops@.map_values(|m: Matrix| m@),
                qubit: *qubit,
                label: *label,
            },
        }
    }
}

impl View for Op {
    type V = OpV;

    open spec fn view(&self) -> OpV {
        match self {
            Op::Gate(g) => OpV::Gate(g@),
            Op::Measure { qubit, clbit } => OpV::Measure { qubit: *qubit, clbit: *clbit },
            Op::Reset { qubit } => OpV::Reset { qubit: *qubit },
            Op::Conditional { value, ops } => OpV::Conditional {
                value: *value,
                ops: ops@.map_values(|g: GateOp| g@),
            },
        }
    }
}


/// Whether `op` is a gate (not a measurement, reset or conditional).
pub open spec fn is_gate(op: OpV) -> bool {
    op is Gate
}

/// Whether every operation of `ops` is a gate.
pub open spec fn gates_only(ops: Seq<OpV>) -> bool {
    forall|i: int| 0 <= i < ops.len() ==> is_gate(#[trigger] ops[i])
}

/// The gates of `ops`, each of which is a gate.
pub open spec fn gates_of(ops: Seq<OpV>) -> Seq<GateOpV> {
    ops.map_values(|o: OpV| o->Gate_0)
}

/// The number of measurements at the end of `ops`: the circuit's readout.
pub open spec fn trailing_measures(ops: Seq<OpV>) -> nat
    decreases ops.len(),
{
    if ops.len() > 0 && ops.last() is Measure {
        1 + trailing_measures(ops.drop_last())
    } else {
        0
    }
}

/// Whether any operation of `ops` measures.
pub open spec fn any_measure(ops: Seq<OpV>) -> bool {
    exists|i: int| 0 <= i < ops.len() && ops[i] is Measure
}

/// Whether any operation of `ops` is a conditional.
pub open spec fn any_conditional(ops: Seq<OpV>) -> bool {
    exists|i: int| 0 <= i < ops.len() && ops[i] is Conditional
}

/// Whether `op` is a reset or a noise channel: both branch even when last.
pub open spec fn branches_always(op: OpV) -> bool {
    op is Reset || (op matches OpV::Gate(g) && g is Kraus)
}

/// Whether any operation of `ops` is a reset or a noise channel.
pub open spec fn any_reset(ops: Seq<OpV>) -> bool {
    exists|i: int| 0 <= i < ops.len() && branches_always(ops[i])
}

/// Whether a collapse in `ops` can affect what follows it: a reset or channel
/// anywhere, or a measurement before the trailing readout.
pub open spec fn mid_circuit(ops: Seq<OpV>) -> bool {
    any_reset(ops) || any_measure(ops.take(ops.len() - trailing_measures(ops)))
}

pub proof fn lemma_trailing_measures_bound(ops: Seq<OpV>)
    ensures
        trailing_measures(ops) <= ops.len(),
        forall|i: int| ops.len() - trailing_measures(ops) <= i < ops.len() ==> #[trigger] ops[i] is Measure,
        trailing_measures(ops) < ops.len() ==> !(ops[ops.len() - trailing_measures(ops) - 1] is Measure),
    decreases ops.len(),
{
    if ops.len() > 0 && ops.last() is Measure {
        lemma_trailing_measures_bound(ops.drop_last());
        assert forall|i: int| ops.len() - trailing_measures(ops) <= i < ops.len() implies #[trigger] ops[i] is Measure by {
            if i < ops.len() - 1 {
                assert(ops[i] == ops.drop_last()[i]);
            }
        }
    }
}

/// A copy of a matrix.
pub fn copy_matrix(m: &Matrix) -> (r: Matrix)
    ensures
        r@ == m@,
{
    let mut parts: Vec<Vec<char>> = Vec::new();
    let mut k: usize = 0;
    while k < m.parts.len()
        invariant
            k <= m.parts@.len(),
            parts@.len() == k,
            forall|i: int| 0 <= i < k ==> #[trigger] parts@[i]@ == m.parts@[i]@,
        decreases m.parts@.len() - k,
    {
        parts.push(crate::expr::copy_chars(&m.parts[k]));
        k = k + 1;
    }
    let r = Matrix { parts };
    proof {
        assert(r@ =~= m@);
    }
    r
}

impl Gate {
    /// A copy of this gate.
    pub fn duplicate(&self) -> (r: Gate)
        ensures
            r@ == self@,
    {
        match self {
            Gate::I => Gate::I,
            Gate::H => Gate::H,
            Gate::X => Gate::X,
            Gate::Y => Gate::Y,
            Gate::Z => Gate::Z,
            Gate::S => Gate::S,
            Gate::T => Gate::T,
            Gate::Sdg => Gate::Sdg,
            Gate::Tdg => Gate::Tdg,
            Gate::SX => Gate::SX,
            Gate::SXdg => Gate::SXdg,
            Gate::P(a) => Gate::P(a.duplicate()),
            Gate::U2(a, b) => Gate::U2(a.duplicate(), b.duplicate()),
            Gate::U3(a, b, c) => Gate::U3(a.duplicate(), b.duplicate(), c.duplicate()),
            Gate::RX(a) => Gate::RX(a.duplicate()),
            Gate::RY(a) => Gate::RY(a.duplicate()),
            Gate::RZ(a) => Gate::RZ(a.duplicate()),
            Gate::Matrix(m) => Gate::Matrix(copy_matrix(m)),
        }
    }
}

impl GateOp {
    /// A copy of this operation.
    pub fn duplicate(&self) -> (r: GateOp)
        ensures
            r@ == self@,
    {
        match self {
            GateOp::Single { gate, target, label } => GateOp::Single {
                gate: gate.duplicate(),
                target: *target,
                label: *label,
            },
            GateOp::Controlled { gate, control, target, label } => GateOp::Controlled {
                gate: gate.duplicate(),
                control: *control,
                target: *target,
                label: *label,
            },
            GateOp::Swap { a, b } => GateOp::Swap { a: *a, b: *b },
            GateOp::MultiControlled { gate, controls, target, label } => GateOp::MultiControlled {
                gate: gate.duplicate(),
                controls: copy_usizes(controls.as_slice()),
                target: *target,
                label: *label,
            },
            GateOp::Kraus { ops, qubit, label } => {
                let mut copies: Vec<Matrix> = Vec::new();
                let mut k: usize = 0;
                while k < ops.len()
                    invariant
                        k <= ops@.len(),
                        copies@.len() == k,
                        forall|i: int| 0 <= i < k ==> #[trigger] copies@[i]@ == ops@[i]@,
                    decreases ops@.len() - k,
                {
                    copies.push(copy_matrix(&ops[k]));
                    k = k + 1;
                }
                let r = GateOp::Kraus { ops: copies, qubit: *qubit, label: *label };
                proof {
                    assert(copies@.map_values(|m: Matrix| m@) =~= ops@.map_values(|m: Matrix| m@));
                }
                r
            },
        }
    }
}

/// Copies of `ops`.
pub fn copy_gate_ops(ops: &[GateOp]) -> (r: Vec<GateOp>)
    ensures
        r@.map_values(|g: GateOp| g@) == ops@.map_values(|g: GateOp| g@),
{
    let mut r: Vec<GateOp> = Vec::new();
    let mut k: usize = 0;
    while k < ops.len()
        invariant
            k <= ops@.len(),
            r@.len() == k,
            forall|i: int| 0 <= i < k ==> #[trigger] r@[i]@ == ops@[i]@,
        decreases ops@.len() - k,
    {
        r.push(ops[k].duplicate());
        k = k + 1;
    }
    proof {
        assert(r@.map_values(|g: GateOp| g@) =~= ops@.map_values(|g: GateOp| g@));
    }
    r
}

impl Op {
    /// A copy of this operation.
    pub fn duplicate(&self) -> (r: Op)
        ensures
            r@ == self@,
    {
        match self {
            Op::Gate(g) => Op::Gate(g.duplicate()),
            Op::Measure { qubit, clbit } => Op::Measure { qubit: *qubit, clbit: *clbit },
            Op::Reset { qubit } => Op::Reset { qubit: *qubit },
            Op::Conditional { value, ops } => Op::Conditional {
                value: *value,
                ops: copy_gate_ops(ops.as_slice()),
            },
        }
    }
}

/// A quantum circuit: an ordered list of operations on `n_qubits`.
#[derive(Debug)]
pub struct Circuit {
    n_qubits: usize,
    ops: Vec<Op>,
}

impl View for Circuit {
    type V = CircuitV;

    closed spec fn view(&self) -> CircuitV {
        CircuitV { n_qubits: self.n_qubits, ops: self.ops@.map_values(|o: Op| o@) }
    }
}

/// A copy of `v`.
pub fn copy_usizes(v: &[usize]) -> (r: Vec<usize>)
    ensures
        r@ == v@,
{
    let mut r: Vec<usize> = Vec::new();
    let mut k: usize = 0;
    while k < v.len()
        invariant
            k <= v@.len(),
            r@ == v@.take(k as int),
        decreases v@.len() - k,
    {
        r.push(v[k]);
        proof {
            assert(v@.take(k + 1) == v@.take(k as int).push(v@[k as int]));
        }
        k = k + 1;
    }
    proof {
        assert(v@.take(v@.len() as int) == v@);
    }
    r
}

/// `c` with `op` appended.
pub open spec fn with_op(c: CircuitV, op: OpV) -> CircuitV {
    CircuitV { n_qubits: c.n_qubits, ops: c.ops.push(op) }
}

/// `c` with gate `g` appended.
pub open spec fn with_gate(c: CircuitV, g: GateOpV) -> CircuitV {
    with_op(c, OpV::Gate(g))
}

/// `c` with the single-qubit gate `gate` on `target` appended.
pub open spec fn with_single(c: CircuitV, gate: GateV, target: usize, label: Label) -> CircuitV {
    with_gate(c, GateOpV::Single { gate, target, label })
}

/// `c` with a controlled `gate` appended.
pub open spec fn with_controlled(
    c: CircuitV,
    gate: GateV,
    control: usize,
    target: usize,
    label: Label,
) -> CircuitV {
    with_gate(c, GateOpV::Controlled { gate, control, target, label })
}


/// `c` after `p(a, t)`.
pub open spec fn sp_p(c: CircuitV, a: AngleV, t: usize) -> CircuitV {
    with_single(c, GateV::P(a), t, Label::P)
}

/// `c` after `u2(a, b, t)`.
pub open spec fn sp_u2(c: CircuitV, a: AngleV, b: AngleV, t: usize) -> CircuitV {
    with_single(c, GateV::U2(a, b), t, Label::U2)
}

/// `c` after `u3(a, b, d, t)`.
pub open spec fn sp_u3(c: CircuitV, a: AngleV, b: AngleV, d: AngleV, t: usize) -> CircuitV {
    with_single(c, GateV::U3(a, b, d), t, Label::U3)
}

/// `c` after `h(t)`.
pub open spec fn sp_h(c: CircuitV, t: usize) -> CircuitV {
    with_single(c, GateV::H, t, Label::H)
}

/// `c` after `cnot(ctl, t)`.
pub open spec fn sp_cnot(c: CircuitV, ctl: usize, t: usize) -> CircuitV {
    with_controlled(c, GateV::X, ctl, t, Label::X)
}

/// `c` with a multi-controlled `gate` appended.
pub open spec fn sp_mc(c: CircuitV, gate: GateV, controls: Seq<usize>, t: usize, label: Label) -> CircuitV {
    with_gate(c, GateOpV::MultiControlled { gate, controls, target: t, label })
}

/// `c` after `cswap(ctl, a, b)`.
pub open spec fn sp_cswap(c: CircuitV, ctl: usize, a: usize, b: usize) -> CircuitV {
    sp_cnot(sp_mc(sp_cnot(c, b, a), GateV::X, seq![ctl, a], b, Label::X), b, a)
}

/// `c` with a measurement of each of `qs` appended, `qs[i]` into bit `bs[i]`.
pub open spec fn sp_measure_into(c: CircuitV, qs: Seq<usize>, bs: Seq<usize>) -> CircuitV
    decreases qs.len(),
{
    if qs.len() == 0 || bs.len() == 0 {
        c
    } else {
        with_op(sp_measure_into(c, qs.drop_last(), bs.drop_last()), OpV::Measure { qubit: qs.last(), clbit: bs.last() })
    }
}

/// `c` with a reset of each of `qs` appended.
pub open spec fn sp_reset_each(c: CircuitV, qs: Seq<usize>) -> CircuitV
    decreases qs.len(),
{
    if qs.len() == 0 {
        c
    } else {
        with_op(sp_reset_each(c, qs.drop_last()), OpV::Reset { qubit: qs.last() })
    }
}

impl Circuit {
    proof fn lemma_push_view(old_ops: Seq<Op>, new_ops: Seq<Op>, op: Op)
        requires
            new_ops == old_ops.push(op),
        ensures
            new_ops.map_values(|o: Op| o@) == old_ops.map_values(|o: Op| o@).push(op@),
    {
        assert(new_ops.map_values(|o: Op| o@) =~= old_ops.map_values(|o: Op| o@).push(op@));
    }

    /// Append `op`.
    fn push_op(&mut self, op: Op) -> (r: &mut Self)
        ensures
            r@ == with_op(old(self)@, op@),
            final(self)@ == final(r)@,
    {
        let ghost old_ops = self.ops@;
        let ghost v = op@;
        self.ops.push(op);
        proof {
            Self::lemma_push_view(old_ops, self.ops@, self.ops@.last());
        }
        self
    }

    /// Create an empty circuit over `n_qubits` qubits.
    pub fn new(n_qubits: usize) -> (r: Self)
        ensures
            r@.n_qubits == n_qubits,
            r@.ops == Seq::<OpV>::empty(),
    {
        let r = Circuit { n_qubits, ops: Vec::new() };
        proof {
            assert(r@.ops =~= Seq::<OpV>::empty());
        }
        r
    }

    /// The operations, in order.
    pub fn ops(&self) -> (r: &[Op])
        ensures
            r@.map_values(|o: Op| o@) == self@.ops,
    {
        self.ops.as_slice()
    }

    /// The number of operations.
    pub(crate) fn op_count(&self) -> (r: usize)
        ensures
            r == self@.ops.len(),
    {
        self.ops.len()
    }

    /// Drop every operation after the first `len`, taking back what a failed
    /// statement appended.
    pub(crate) fn truncate_ops(&mut self, len: usize)
        requires
            len <= old(self)@.ops.len(),
        ensures
            final(self)@ == (CircuitV { n_qubits: old(self)@.n_qubits, ops: old(self)@.ops.take(len as int) }),
    {
        self.ops.truncate(len);
        proof {
            assert(final(self)@.ops =~= old(self)@.ops.take(len as int));
        }
    }

    /// Append another circuit's operations to this one.
    pub fn extend_from(&mut self, other: &Circuit)
        ensures
            final(self)@ == (CircuitV { n_qubits: old(self)@.n_qubits, ops: old(self)@.ops + other@.ops }),
    {
        let mut k: usize = 0;
        while k < other.ops.len()
            invariant
                k <= other.ops@.len(),
                self@.n_qubits == old(self)@.n_qubits,
                self@.ops == old(self)@.ops + other@.ops.take(k as int),
            decreases other.ops@.len() - k,
        {
            let op = other.ops[k].duplicate();
            self.push_op(op);
            proof {
                assert(other@.ops.take(k + 1) == other@.ops.take(k as int).push(other@.ops[k as int]));
            }
            k = k + 1;
        }
        proof {
            assert(other@.ops.take(other.ops@.len() as int) == other@.ops);
        }
    }

    /// Run `block`'s gates only when the classical register equals `value`
    /// (OpenQASM's `if (c == value)`). The block may hold only gates: a
    /// measurement or reset would change the value being tested part-way
    /// through. An empty block adds nothing.
    pub fn if_classical_eq(&mut self, value: u64, block: Circuit) -> (r: &mut Self)
        requires
            gates_only(block@.ops),
        ensures
            r@ == if block@.ops.len() == 0 {
                old(self)@
            } else {
                with_op(old(self)@, OpV::Conditional { value, ops: gates_of(block@.ops) })
            },
            final(self)@ == final(r)@,
    {
        let ghost bv = block@.ops;
        let mut ops = block.ops;
        if ops.len() == 0 {
            return self;
        }
        let mut gates: Vec<GateOp> = Vec::new();
        while ops.len() > 0
            invariant
                bv.len() == gates@.len() + ops@.len(),
                forall|i: int| 0 <= i < bv.len() ==> is_gate(#[trigger] bv[i]),
                forall|i: int| 0 <= i < gates@.len() ==> OpV::Gate(#[trigger] gates@[i]@) == bv[i],
                forall|i: int| 0 <= i < ops@.len() ==> #[trigger] ops@[i]@ == bv[gates@.len() + i],
            decreases ops@.len(),
        {
            let op = ops.remove(0);
            proof {
                assert(op@ == bv[gates@.len() as int]);
                assert(is_gate(bv[gates@.len() as int]));
            }
            match op {
                Op::Gate(g) => {
                    gates.push(g);
                },
                _ => {},
            }
        }
        proof {
            assert(gates@.map_values(|g: GateOp| g@) =~= gates_of(bv));
        }
        self.push_op(Op::Conditional { value, ops: gates })
    }

    /// Whether the circuit measures at all.
    pub fn has_measurement(&self) -> (r: bool)
        ensures
            r == any_measure(self@.ops),
    {
        let mut k: usize = 0;
        while k < self.ops.len()
            invariant
                k <= self.ops@.len(),
                forall|i: int| 0 <= i < k ==> !(#[trigger] self@.ops[i] is Measure),
            decreases self.ops@.len() - k,
        {
            if let Op::Measure { .. } = &self.ops[k] {
                proof { assert(self@.ops[k as int] is Measure); }
                return true;
            }
            k = k + 1;
        }
        false
    }

    /// Whether the circuit reads the classical register.
    pub fn has_conditional(&self) -> (r: bool)
        ensures
            r == any_conditional(self@.ops),
    {
        let mut k: usize = 0;
        while k < self.ops.len()
            invariant
                k <= self.ops@.len(),
                forall|i: int| 0 <= i < k ==> !(#[trigger] self@.ops[i] is Conditional),
            decreases self.ops@.len() - k,
        {
            if let Op::Conditional { .. } = &self.ops[k] {
                proof { assert(self@.ops[k as int] is Conditional); }
                return true;
            }
            k = k + 1;
        }
        false
    }

    /// Whether the circuit contains a reset or a noise channel.
    pub fn has_reset(&self) -> (r: bool)
        ensures
            r == any_reset(self@.ops),
    {
        let mut k: usize = 0;
        while k < self.ops.len()
            invariant
                k <= self.ops@.len(),
                forall|i: int| 0 <= i < k ==> !branches_always(#[trigger] self@.ops[i]),
            decreases self.ops@.len() - k,
        {
            match &self.ops[k] {
                Op::Reset { .. } | Op::Gate(GateOp::Kraus { .. }) => {
                    proof { assert(branches_always(self@.ops[k as int])); }
                    return true;
                },
                _ => {},
            }
            k = k + 1;
        }
        false
    }

    /// How many of the final operations are measurements: the readout.
    pub fn trailing_measurements(&self) -> (r: usize)
        ensures
            r == trailing_measures(self@.ops),
    {
        let ghost v = self@.ops;
        let mut k: usize = self.ops.len();
        proof {
            assert(v.take(k as int) == v);
        }
        while k > 0
            invariant
                k <= self.ops@.len(),
                v == self@.ops,
                trailing_measures(v) == (self.ops@.len() - k) + trailing_measures(v.take(k as int)),
            decreases k,
        {
            match &self.ops[k - 1] {
                Op::Measure { .. } => {},
                _ => {
                    proof {
                        assert(!(v.take(k as int).last() is Measure));
                    }
                    return self.ops.len() - k;
                },
            }
            proof {
                assert(v.take(k as int).drop_last() == v.take(k - 1));
            }
            k = k - 1;
        }
        self.ops.len()
    }

    /// Whether a collapse can affect anything that follows it.
    pub fn measures_mid_circuit(&self) -> (r: bool)
        ensures
            r == mid_circuit(self@.ops),
    {
        if self.has_reset() {
            return true;
        }
        let t = self.trailing_measurements();
        proof { lemma_trailing_measures_bound(self@.ops); }
        let end = self.ops.len() - t;
        let mut k: usize = 0;
        while k < end
            invariant
                k <= end <= self.ops@.len(),
                end == self.ops@.len() - trailing_measures(self@.ops),
                forall|i: int| 0 <= i < k ==> !(#[trigger] self@.ops[i] is Measure),
            decreases end - k,
        {
            if let Op::Measure { .. } = &self.ops[k] {
                proof { assert(self@.ops.take(end as int)[k as int] is Measure); }
                return true;
            }
            k = k + 1;
        }
        proof {
            assert forall|i: int| 0 <= i < self@.ops.take(end as int).len() implies !(#[trigger] self@.ops.take(end as int)[i] is Measure) by {
                assert(self@.ops.take(end as int)[i] == self@.ops[i]);
            }
        }
        false
    }

    /// How many qubits the circuit acts on.
    pub fn n_qubits(&self) -> (r: usize)
        ensures
            r == self@.n_qubits,
    {
        self.n_qubits
    }

    /// Hadamard gate on `target`.
    pub fn h(&mut self, target: usize) -> (r: &mut Self)
        ensures
            r@ == with_single(old(self)@, GateV::H, target, Label::H),
            final(self)@ == final(r)@,
    {
        self.push_op(Op::Gate(GateOp::Single { gate: Gate::H, target, label: Label::H }))
    }

    /// Pauli-X (NOT) gate on `target`.
    pub fn x(&mut self, target: usize) -> (r: &mut Self)
        ensures
            r@ == with_single(old(self)@, GateV::X, target, Label::X),
            final(self)@ == final(r)@,
    {
        self.push_op(Op::Gate(GateOp::Single { gate: Gate::X, target, label: Label::X }))
    }

    /// Pauli-Z gate on `target`.
    pub fn z(&mut self, target: usize) -> (r: &mut Self)
        ensures
            r@ == with_single(old(self)@, GateV::Z, target, Label::Z),
            final(self)@ == final(r)@,
    {
        self.push_op(Op::Gate(GateOp::Single { gate: Gate::Z, target, label: Label::Z }))
    }

    /// Identity gate on `target`: an explicit idle step (OpenQASM `id`).
    pub fn id(&mut self, target: usize) -> (r: &mut Self)
        ensures
            r@ == with_single(old(self)@, GateV::I, target, Label::I),
            final(self)@ == final(r)@,
    {
        self.push_op(Op::Gate(GateOp::Single { gate: Gate::I, target, label: Label::I }))
    }

    /// Square root of X on `target` (OpenQASM `sx`).
    pub fn sx(&mut self, target: usize) -> (r: &mut Self)
        ensures
            r@ == with_single(old(self)@, GateV::SX, target, Label::SX),
            final(self)@ == final(r)@,
    {
        self.push_op(Op::Gate(GateOp::Single { gate: Gate::SX, target, label: Label::SX }))
    }

    /// Inverse square root of X on `target` (OpenQASM `sxdg`).
    pub fn sxdg(&mut self, target: usize) -> (r: &mut Self)
        ensures
            r@ == with_single(old(self)@, GateV::SXdg, target, Label::SXDG),
            final(self)@ == final(r)@,
    {
        self.push_op(Op::Gate(GateOp::Single { gate: Gate::SXdg, target, label: Label::SXDG }))
    }

    /// Pauli-Y gate on `target`.
    pub fn y(&mut self, target: usize) -> (r: &mut Self)
        ensures
            r@ == with_single(old(self)@, GateV::Y, target, Label::Y),
            final(self)@ == final(r)@,
    {
        self.push_op(Op::Gate(GateOp::Single { gate: Gate::Y, target, label: Label::Y }))
    }

    /// Phase gate S = diag(1, i).
    pub fn s(&mut self, target: usize) -> (r: &mut Self)
        ensures
            r@ == with_single(old(self)@, GateV::S, target, Label::S),
            final(self)@ == final(r)@,
    {
        self.push_op(Op::Gate(GateOp::Single { gate: Gate::S, target, label: Label::S }))
    }

    /// T gate = diag(1, e^{i pi/4}).
    pub fn t(&mut self, target: usize) -> (r: &mut Self)
        ensures
            r@ == with_single(old(self)@, GateV::T, target, Label::T),
            final(self)@ == final(r)@,
    {
        self.push_op(Op::Gate(GateOp::Single { gate: Gate::T, target, label: Label::T }))
    }

    /// S-dagger gate = diag(1, -i).
    pub fn sdg(&mut self, target: usize) -> (r: &mut Self)
        ensures
            r@ == with_single(old(self)@, GateV::Sdg, target, Label::SDG),
            final(self)@ == final(r)@,
    {
        self.push_op(Op::Gate(GateOp::Single { gate: Gate::Sdg, target, label: Label::SDG }))
    }

    /// T-dagger gate = diag(1, e^{-i pi/4}).
    pub fn tdg(&mut self, target: usize) -> (r: &mut Self)
        ensures
            r@ == with_single(old(self)@, GateV::Tdg, target, Label::TDG),
            final(self)@ == final(r)@,
    {
        self.push_op(Op::Gate(GateOp::Single { gate: Gate::Tdg, target, label: Label::TDG }))
    }

    /// Phase gate P(lambda) = diag(1, e^{i lambda}) on `target` (OpenQASM `u1`).
    pub fn p(&mut self, lambda: Angle, target: usize) -> (r: &mut Self)
        ensures
            r@ == with_single(old(self)@, GateV::P(lambda@), target, Label::P),
            final(self)@ == final(r)@,
    {
        self.push_op(Op::Gate(GateOp::Single { gate: Gate::P(lambda), target, label: Label::P }))
    }

    /// General single-qubit gate U3(theta, phi, lambda) on `target`.
    pub fn u3(&mut self, theta: Angle, phi: Angle, lambda: Angle, target: usize) -> (r: &mut Self)
        ensures
            r@ == with_single(old(self)@, GateV::U3(theta@, phi@, lambda@), target, Label::U3),
            final(self)@ == final(r)@,
    {
        self.push_op(Op::Gate(GateOp::Single { gate: Gate::U3(theta, phi, lambda), target, label: Label::U3 }))
    }

    /// Single-qubit gate U2(phi, lambda) = U3(pi/2, phi, lambda) on `target`.
    pub fn u2(&mut self, phi: Angle, lambda: Angle, target: usize) -> (r: &mut Self)
        ensures
            r@ == with_single(old(self)@, GateV::U2(phi@, lambda@), target, Label::U2),
            final(self)@ == final(r)@,
    {
        self.push_op(Op::Gate(GateOp::Single { gate: Gate::U2(phi, lambda), target, label: Label::U2 }))
    }

    /// Rotation about the X axis by `theta` on `target`.
    pub fn rx(&mut self, theta: Angle, target: usize) -> (r: &mut Self)
        ensures
            r@ == with_single(old(self)@, GateV::RX(theta@), target, Label::RX),
            final(self)@ == final(r)@,
    {
        self.push_op(Op::Gate(GateOp::Single { gate: Gate::RX(theta), target, label: Label::RX }))
    }

    /// Rotation about the Y axis by `theta` on `target`.
    pub fn ry(&mut self, theta: Angle, target: usize) -> (r: &mut Self)
        ensures
            r@ == with_single(old(self)@, GateV::RY(theta@), target, Label::RY),
            final(self)@ == final(r)@,
    {
        self.push_op(Op::Gate(GateOp::Single { gate: Gate::RY(theta), target, label: Label::RY }))
    }

    /// Rotation about the Z axis by `theta` on `target`.
    pub fn rz(&mut self, theta: Angle, target: usize) -> (r: &mut Self)
        ensures
            r@ == with_single(old(self)@, GateV::RZ(theta@), target, Label::RZ),
            final(self)@ == final(r)@,
    {
        self.push_op(Op::Gate(GateOp::Single { gate: Gate::RZ(theta), target, label: Label::RZ }))
    }

    /// Controlled-NOT: flips `target` when `control` is |1>.
    pub fn cnot(&mut self, control: usize, target: usize) -> (r: &mut Self)
        ensures
            r@ == with_controlled(old(self)@, GateV::X, control, target, Label::X),
            final(self)@ == final(r)@,
    {
        self.push_op(Op::Gate(GateOp::Controlled { gate: Gate::X, control, target, label: Label::X }))
    }

    /// Controlled-Rz: `rz(theta)` on `target` when `control` is |1> (OpenQASM `crz`).
    pub fn crz(&mut self, theta: Angle, control: usize, target: usize) -> (r: &mut Self)
        ensures
            r@ == with_controlled(old(self)@, GateV::RZ(theta@), control, target, Label::CRZ),
            final(self)@ == final(r)@,
    {
        self.push_op(Op::Gate(GateOp::Controlled { gate: Gate::RZ(theta), control, target, label: Label::CRZ }))
    }

    /// Controlled phase: phase `e^{i lambda}` on the |11> component (OpenQASM `cu1`).
    pub fn cp(&mut self, lambda: Angle, control: usize, target: usize) -> (r: &mut Self)
        ensures
            r@ == with_controlled(old(self)@, GateV::P(lambda@), control, target, Label::CP),
            final(self)@ == final(r)@,
    {
        self.push_op(Op::Gate(GateOp::Controlled { gate: Gate::P(lambda), control, target, label: Label::CP }))
    }

    /// Controlled-U3 on `target` when `control` is |1> (OpenQASM `cu3`).
    pub fn cu3(&mut self, theta: Angle, phi: Angle, lambda: Angle, control: usize, target: usize) -> (r: &mut Self)
        ensures
            r@ == with_controlled(old(self)@, GateV::U3(theta@, phi@, lambda@), control, target, Label::CU3),
            final(self)@ == final(r)@,
    {
        self.push_op(Op::Gate(GateOp::Controlled { gate: Gate::U3(theta, phi, lambda), control, target, label: Label::CU3 }))
    }

    /// Controlled-Z: phase -1 on the |11> component.
    pub fn cz(&mut self, control: usize, target: usize) -> (r: &mut Self)
        ensures
            r@ == with_controlled(old(self)@, GateV::Z, control, target, Label::Z),
            final(self)@ == final(r)@,
    {
        self.push_op(Op::Gate(GateOp::Controlled { gate: Gate::Z, control, target, label: Label::Z }))
    }

    /// Controlled-Y (OpenQASM `cy`).
    pub fn cy(&mut self, control: usize, target: usize) -> (r: &mut Self)
        ensures
            r@ == with_controlled(old(self)@, GateV::Y, control, target, Label::Y),
            final(self)@ == final(r)@,
    {
        self.push_op(Op::Gate(GateOp::Controlled { gate: Gate::Y, control, target, label: Label::Y }))
    }

    /// Controlled-Hadamard (OpenQASM `ch`).
    pub fn ch(&mut self, control: usize, target: usize) -> (r: &mut Self)
        ensures
            r@ == with_controlled(old(self)@, GateV::H, control, target, Label::H),
            final(self)@ == final(r)@,
    {
        self.push_op(Op::Gate(GateOp::Controlled { gate: Gate::H, control, target, label: Label::H }))
    }

    /// Controlled-U: the single-qubit `gate` on `target` only where `control`
    /// is |1>.
    pub fn cu(&mut self, gate: Gate, control: usize, target: usize) -> (r: &mut Self)
        ensures
            r@ == with_controlled(old(self)@, gate@, control, target, Label::U),
            final(self)@ == final(r)@,
    {
        self.push_op(Op::Gate(GateOp::Controlled { gate, control, target, label: Label::U }))
    }

    /// SWAP: exchange the states of qubits `a` and `b`.
    pub fn swap(&mut self, a: usize, b: usize) -> (r: &mut Self)
        ensures
            r@ == with_gate(old(self)@, GateOpV::Swap { a, b }),
            final(self)@ == final(r)@,
    {
        self.push_op(Op::Gate(GateOp::Swap { a, b }))
    }

    /// Controlled-SWAP (Fredkin), as `CNOT(b,a) CCX(c,a,b) CNOT(b,a)`.
    pub fn cswap(&mut self, control: usize, a: usize, b: usize) -> (r: &mut Self)
        ensures
            r@ == with_controlled(
                with_gate(
                    with_controlled(old(self)@, GateV::X, b, a, Label::X),
                    GateOpV::MultiControlled {
                        gate: GateV::X,
                        controls: seq![control, a],
                        target: b,
                        label: Label::X,
                    },
                ),
                GateV::X,
                b,
                a,
                Label::X,
            ),
            final(self)@ == final(r)@,
    {
        self.cnot(b, a);
        self.toffoli(control, a, b);
        self.cnot(b, a)
    }

    /// Multi-controlled-U: the single-qubit `gate` on `target` only where every
    /// qubit in `controls` is |1>.
    pub fn mcu(&mut self, gate: Gate, controls: &[usize], target: usize) -> (r: &mut Self)
        ensures
            r@ == with_gate(
                old(self)@,
                GateOpV::MultiControlled { gate: gate@, controls: controls@, target, label: Label::U },
            ),
            final(self)@ == final(r)@,
    {
        let cs = copy_usizes(controls);
        self.push_op(Op::Gate(GateOp::MultiControlled { gate, controls: cs, target, label: Label::U }))
    }

    /// Multi-controlled-X: flip `target` only when every qubit in `controls`
    /// is |1>.
    pub fn mcx(&mut self, controls: &[usize], target: usize) -> (r: &mut Self)
        ensures
            r@ == with_gate(
                old(self)@,
                GateOpV::MultiControlled { gate: GateV::X, controls: controls@, target, label: Label::X },
            ),
            final(self)@ == final(r)@,
    {
        let cs = copy_usizes(controls);
        self.push_op(Op::Gate(GateOp::MultiControlled { gate: Gate::X, controls: cs, target, label: Label::X }))
    }

    /// Toffoli (CCNOT): flip `target` only when both controls are |1>.
    pub fn toffoli(&mut self, control1: usize, control2: usize, target: usize) -> (r: &mut Self)
        ensures
            r@ == with_gate(
                old(self)@,
                GateOpV::MultiControlled {
                    gate: GateV::X,
                    controls: seq![control1, control2],
                    target,
                    label: Label::X,
                },
            ),
            final(self)@ == final(r)@,
    {
        let cs = vec![control1, control2];
        proof {
            assert(cs@ =~= seq![control1, control2]);
        }
        self.push_op(Op::Gate(GateOp::MultiControlled { gate: Gate::X, controls: cs, target, label: Label::X }))
    }

    /// A noise channel on `qubit`, given as Kraus operators, labelled `label`.
    /// The operators' completeness is the caller's to check.
    pub fn named_channel(&mut self, ops: Vec<Matrix>, qubit: usize, label: Label) -> (r: &mut Self)
        requires
            ops@.len() > 0,
        ensures
            r@ == with_gate(
                old(self)@,
                GateOpV::Kraus { ops: ops@.map_values(|m: Matrix| m@), qubit, label },
            ),
            final(self)@ == final(r)@,
    {
        self.push_op(Op::Gate(GateOp::Kraus { ops, qubit, label }))
    }

    /// A noise channel on `qubit`, given as Kraus operators.
    pub fn channel(&mut self, ops: Vec<Matrix>, qubit: usize) -> (r: &mut Self)
        requires
            ops@.len() > 0,
        ensures
            r@ == with_gate(
                old(self)@,
                GateOpV::Kraus { ops: ops@.map_values(|m: Matrix| m@), qubit, label: Label::N },
            ),
            final(self)@ == final(r)@,
    {
        self.named_channel(ops, qubit, Label::N)
    }

    /// Reset `qubit` to |0>, whatever state it was in.
    pub fn reset(&mut self, qubit: usize) -> (r: &mut Self)
        ensures
            r@ == with_op(old(self)@, OpV::Reset { qubit }),
            final(self)@ == final(r)@,
    {
        self.push_op(Op::Reset { qubit })
    }

    /// Measure `qubit`, recording the outcome in classical bit `qubit`.
    pub fn measure(&mut self, qubit: usize) -> (r: &mut Self)
        ensures
            r@ == with_op(old(self)@, OpV::Measure { qubit, clbit: qubit }),
            final(self)@ == final(r)@,
    {
        self.measure_into(qubit, qubit)
    }

    /// Measure `qubit`, recording the outcome in classical bit `clbit`.
    pub fn measure_into(&mut self, qubit: usize, clbit: usize) -> (r: &mut Self)
        ensures
            r@ == with_op(old(self)@, OpV::Measure { qubit, clbit }),
            final(self)@ == final(r)@,
    {
        self.push_op(Op::Measure { qubit, clbit })
    }
}


/// The largest register the density-matrix backend will hold: `4^n` entries.
pub const MAX_DENSITY_QUBITS: usize = 12;

/// Reason a circuit could not be run as a density matrix.
#[derive(Debug, Clone, PartialEq, Eq)]
#[non_exhaustive]
pub enum DensityError {
    /// The register is too large for a `2^n x 2^n` matrix.
    TooManyQubits {
        /// The circuit's qubit count.
        qubits: usize,
        /// The largest a density matrix will allocate.
        max: usize,
    },
    /// Classical feed-forward needs a measurement outcome, which a density
    /// matrix does not carry; such a circuit is sampled instead.
    ClassicalFeedForward,
}

/// How a density error reads.
pub open spec fn density_error_text(e: DensityError) -> Seq<char> {
    match e {
        DensityError::TooManyQubits { qubits, max } => "a density matrix for "@ + decimal(qubits as nat)
            + " qubits is 4^"@ + decimal(qubits as nat) + " entries, over the maximum of "@ + decimal(max as nat),
        DensityError::ClassicalFeedForward => "classical feed-forward needs a measurement outcome, which a density matrix does not carry; sample it instead"@,
    }
}

impl DensityError {
    /// The error as a reader sees it.
    pub fn render(&self) -> (r: String)
        ensures
            r@ == density_error_text(*self),
    {
        match self {
            DensityError::TooManyQubits { qubits, max } => {
                let mut m = chars_of("a density matrix for ");
                push_decimal(&mut m, *qubits as u64);
                push_all(&mut m, chars_of(" qubits is 4^").as_slice());
                push_decimal(&mut m, *qubits as u64);
                push_all(&mut m, chars_of(" entries, over the maximum of ").as_slice());
                push_decimal(&mut m, *max as u64);
                string_of(m.as_slice())
            },
            DensityError::ClassicalFeedForward => string_of(
                chars_of(
                    "classical feed-forward needs a measurement outcome, which a density matrix does not carry; sample it instead",
                ).as_slice(),
            ),
        }
    }
}

impl Circuit {
    /// Whether the density-matrix backend can run this circuit: the register
    /// must fit, and nothing may branch on a measurement outcome.
    pub fn density_admits(&self) -> (r: Result<(), DensityError>)
        ensures
            r == (if self@.n_qubits > MAX_DENSITY_QUBITS {
                Err(DensityError::TooManyQubits { qubits: self@.n_qubits, max: MAX_DENSITY_QUBITS })
            } else if any_conditional(self@.ops) {
                Err(DensityError::ClassicalFeedForward)
            } else {
                Ok(())
            }),
    {
        if self.n_qubits > MAX_DENSITY_QUBITS {
            return Err(DensityError::TooManyQubits { qubits: self.n_qubits, max: MAX_DENSITY_QUBITS });
        }
        if self.has_conditional() {
            return Err(DensityError::ClassicalFeedForward);
        }
        Ok(())
    }
}

} // verus!
