//! OpenQASM 2.0 export: which statements a circuit becomes.
//!
//! Every built-in gate has an OpenQASM name, a measurement writes its
//! classical bit, and a guarded block prefixes each of its statements with
//! `if(c==value)`. A multi-controlled X is decomposed into Toffolis, borrowing
//! a qubit the operation leaves untouched where there is one. What needs the
//! numeric value of a gate (the Euler angles of an arbitrary controlled
//! unitary, the printed angles) is left to the writer that prints the plan.
use vstd::prelude::*;
use crate::circuit::{any_conditional, any_measure, Circuit, CircuitV, Gate, GateOp, GateOpV, GateV, Label, Op, OpV};
use crate::diagram::label_text;
use crate::expr::{angles_v, Angle, AngleV};
use crate::text::{chars_of, decimal, push_all, push_decimal, string_of};

verus! {

/// Reason a circuit could not be exported to OpenQASM 2.
#[derive(Debug, Clone, PartialEq, Eq)]
#[non_exhaustive]
pub enum ExportError {
    /// An arbitrary single-qubit gate with no OpenQASM name. Built-in gates
    /// never produce this.
    SingleGate {
        /// Its diagram label.
        label: &'static str,
    },
    /// A noise channel: OpenQASM 2 has no syntax for a quantum channel, so a
    /// noisy circuit cannot be written out without silently dropping it.
    Noise,
}

/// The content of an [`ExportError`].
pub enum ExportErrorV {
    SingleGate(Seq<char>),
    Noise,
}

impl View for ExportError {
    type V = ExportErrorV;

    open spec fn view(&self) -> ExportErrorV {
        match self {
            ExportError::SingleGate { label } => ExportErrorV::SingleGate(label@),
            ExportError::Noise => ExportErrorV::Noise,
        }
    }
}

/// How an export error reads.
pub open spec fn export_error_text(e: ExportErrorV) -> Seq<char> {
    match e {
        ExportErrorV::SingleGate(l) => "cannot export single-qubit gate `"@ + l + "` to OpenQASM 2"@,
        ExportErrorV::Noise => "cannot export a noise channel to OpenQASM 2, which has no syntax for one"@,
    }
}

impl ExportError {
    /// The error as a reader sees it.
    pub fn render(&self) -> (r: String)
        ensures
            r@ == export_error_text(self@),
    {
        match self {
            ExportError::SingleGate { label } => {
                let mut m = chars_of("cannot export single-qubit gate `");
                push_all(&mut m, chars_of(label).as_slice());
                push_all(&mut m, chars_of("` to OpenQASM 2").as_slice());
                string_of(m.as_slice())
            },
            ExportError::Noise => {
                string_of(chars_of("cannot export a noise channel to OpenQASM 2, which has no syntax for one").as_slice())
            },
        }
    }
}

/// One statement of an exported program, before angles are printed.
#[derive(Debug)]
pub enum QasmLine {
    /// A statement written out in full.
    Text(Vec<char>),
    /// `name(params) q[a],q[b],...;`, the parameter list left out when empty.
    Gate { name: &'static str, params: Vec<Angle>, qubits: Vec<usize> },
    /// A controlled single-qubit gate with no OpenQASM name: written as a
    /// phase on the control and a `cu3`, from its Euler angles.
    ControlledU { gate: Gate, control: usize, target: usize },
    /// A multi-controlled single-qubit gate other than X: written as the
    /// gate's Euler decomposition with multi-controlled X and phases.
    MultiU { gate: Gate, controls: Vec<usize>, target: usize },
}

/// The content of a [`QasmLine`].
pub enum QasmLineV {
    Text(Seq<char>),
    Gate { name: Seq<char>, params: Seq<AngleV>, qubits: Seq<usize> },
    ControlledU { gate: GateV, control: usize, target: usize },
    MultiU { gate: GateV, controls: Seq<usize>, target: usize },
}

impl View for QasmLine {
    type V = QasmLineV;

    open spec fn view(&self) -> QasmLineV {
        match self {
            QasmLine::Text(t) => QasmLineV::Text(t@),
            QasmLine::Gate { name, params, qubits } => QasmLineV::Gate {
                name: name@,
                params: angles_v(params@),
                qubits: qubits@,
            },
            QasmLine::ControlledU { gate, control, target } => QasmLineV::ControlledU {
                gate: gate@,
                control: *control,
                target: *target,
            },
            QasmLine::MultiU { gate, controls, target } => QasmLineV::MultiU {
                gate: gate@,
                controls: controls@,
                target: *target,
            },
        }
    }
}

/// A statement of an exported program, guarded by `if(c==value)` when it
/// comes from a conditional block.
#[derive(Debug)]
pub struct QasmStmt {
    /// The value the classical register must hold, if guarded.
    pub guard: Option<u64>,
    /// The statement.
    pub line: QasmLine,
}

/// The content of a [`QasmStmt`].
pub struct QasmStmtV {
    pub guard: Option<u64>,
    pub line: QasmLineV,
}

impl View for QasmStmt {
    type V = QasmStmtV;

    open spec fn view(&self) -> QasmStmtV {
        QasmStmtV { guard: self.guard, line: self.line@ }
    }
}

/// The contents of a list of lines.
pub open spec fn lines_v(v: Seq<QasmLine>) -> Seq<QasmLineV> {
    v.map_values(|l: QasmLine| l@)
}

/// The contents of a list of statements.
pub open spec fn stmts_v(v: Seq<QasmStmt>) -> Seq<QasmStmtV> {
    v.map_values(|s: QasmStmt| s@)
}

/// `name q[a],...;` with no parameters.
pub open spec fn plain(name: Seq<char>, qubits: Seq<usize>) -> QasmLineV {
    QasmLineV::Gate { name, params: Seq::empty(), qubits }
}

/// The lowest qubit from `q` on, below `n`, that is neither `target` nor one
/// of `controls`.
pub open spec fn free_from(n: nat, controls: Seq<usize>, target: usize, q: nat) -> Option<usize>
    decreases n - q,
{
    if q >= n {
        None
    } else if q != target && !controls.contains(q as usize) {
        Some(q as usize)
    } else {
        free_from(n, controls, target, q + 1)
    }
}

/// The statements of a multi-controlled X on a register of `n` qubits: `x`,
/// `cx` or `ccx` up to two controls; beyond, the controls split in two
/// halves around a borrowed qubit, run twice so its unknown value cancels;
/// and with no qubit to borrow, the square-root recursion `V V = X`.
pub open spec fn mcx_plan(n: nat, controls: Seq<usize>, target: usize) -> Seq<QasmLineV>
    decreases controls.len(),
{
    if controls.len() == 0 {
        seq![plain("x"@, seq![target])]
    } else if controls.len() == 1 {
        seq![plain("cx"@, seq![controls[0], target])]
    } else if controls.len() == 2 {
        seq![plain("ccx"@, seq![controls[0], controls[1], target])]
    } else {
        match free_from(n, controls, target, 0) {
            Some(b) => {
                let half = (controls.len() + 1) / 2;
                let once = mcx_plan(n, controls.take(half as int), b) + mcx_plan(
                    n,
                    controls.skip(half as int).push(b),
                    target,
                );
                once + once
            },
            None => {
                let last = controls.last();
                let rest = controls.drop_last();
                seq![QasmLineV::ControlledU { gate: GateV::SX, control: last, target }] + mcx_plan(n, rest, last)
                    + seq![QasmLineV::ControlledU { gate: GateV::SXdg, control: last, target }] + mcx_plan(
                    n,
                    rest,
                    last,
                ) + seq![QasmLineV::MultiU { gate: GateV::SX, controls: rest, target }]
            },
        }
    }
}

/// The lowest-numbered qubit of the register that an operation on
/// `controls` and `target` leaves untouched, if any.
pub fn free_qubit(n_qubits: usize, controls: &[usize], target: usize) -> (r: Option<usize>)
    ensures
        r == free_from(n_qubits as nat, controls@, target, 0),
{
    let mut q: usize = 0;
    while q < n_qubits
        invariant
            q <= n_qubits,
            free_from(n_qubits as nat, controls@, target, 0) == free_from(n_qubits as nat, controls@, target, q as nat),
        decreases n_qubits - q,
    {
        if q != target && !holds(controls, q) {
            return Some(q);
        }
        q = q + 1;
    }
    None
}

/// Whether `x` occurs in `v`.
fn holds(v: &[usize], x: usize) -> (r: bool)
    ensures
        r == v@.contains(x),
{
    let mut k: usize = 0;
    while k < v.len()
        invariant
            k <= v@.len(),
            forall|i: int| 0 <= i < k ==> v@[i] != x,
        decreases v@.len() - k,
    {
        if v[k] == x {
            return true;
        }
        k = k + 1;
    }
    false
}

/// A copy of `v[i..j]`.
fn slice_of(v: &[usize], i: usize, j: usize) -> (r: Vec<usize>)
    requires
        i <= j <= v@.len(),
    ensures
        r@ == v@.subrange(i as int, j as int),
{
    let mut r: Vec<usize> = Vec::new();
    let mut k = i;
    while k < j
        invariant
            i <= k <= j <= v@.len(),
            r@ == v@.subrange(i as int, k as int),
        decreases j - k,
    {
        r.push(v[k]);
        proof {
            assert(v@.subrange(i as int, k + 1) == v@.subrange(i as int, k as int).push(v@[k as int]));
        }
        k = k + 1;
    }
    r
}

/// Append `name q[a],...;`.
fn push_plain(out: &mut Vec<QasmLine>, name: &'static str, qubits: Vec<usize>)
    ensures
        lines_v(final(out)@) == lines_v(old(out)@).push(plain(name@, qubits@)),
{
    let ghost before = lines_v(out@);
    let params: Vec<Angle> = Vec::new();
    proof {
        assert(angles_v(params@) =~= Seq::<AngleV>::empty());
    }
    out.push(QasmLine::Gate { name, params, qubits });
    proof {
        assert(lines_v(out@) =~= before.push(out@.last()@));
    }
}

/// Append a line.
fn push_line(out: &mut Vec<QasmLine>, line: QasmLine)
    ensures
        lines_v(final(out)@) == lines_v(old(out)@).push(line@),
{
    let ghost before = lines_v(out@);
    let ghost lv = line@;
    out.push(line);
    proof {
        assert(lines_v(out@) =~= before.push(lv));
    }
}

/// Emit a multi-controlled X (`target ^= AND(controls)`) as OpenQASM 2
/// statements.
pub fn emit_mcx(out: &mut Vec<QasmLine>, n_qubits: usize, controls: &[usize], target: usize)
    ensures
        lines_v(final(out)@) == lines_v(old(out)@) + mcx_plan(n_qubits as nat, controls@, target),
    decreases controls@.len(), 1nat,
{
    let m = controls.len();
    if m == 0 {
        let v = vec![target];
        proof {
            assert(v@ =~= seq![target]);
        }
        push_plain(out, "x", v);
    } else if m == 1 {
        let v = vec![controls[0], target];
        proof {
            assert(v@ =~= seq![controls@[0], target]);
        }
        push_plain(out, "cx", v);
    } else if m == 2 {
        let v = vec![controls[0], controls[1], target];
        proof {
            assert(v@ =~= seq![controls@[0], controls@[1], target]);
        }
        push_plain(out, "ccx", v);
    } else {
        match free_qubit(n_qubits, controls, target) {
            Some(b) => emit_mcx_borrowed(out, n_qubits, controls, target, b),
            None => emit_mcx_root(out, n_qubits, controls, target),
        }
    }
}

/// The borrowed-qubit decomposition of a multi-controlled X with three or
/// more controls.
fn emit_mcx_borrowed(out: &mut Vec<QasmLine>, n_qubits: usize, controls: &[usize], target: usize, b: usize)
    requires
        controls@.len() >= 3,
    ensures
        lines_v(final(out)@) == lines_v(old(out)@) + ({
            let half = (controls@.len() + 1) / 2;
            let once = mcx_plan(n_qubits as nat, controls@.take(half as int), b) + mcx_plan(
                n_qubits as nat,
                controls@.skip(half as int).push(b),
                target,
            );
            once + once
        }),
    decreases controls@.len(), 0nat,
{
    let m = controls.len();
    let half = m - m / 2;
    let lo = slice_of(controls, 0, half);
    let mut hi = slice_of(controls, half, m);
    hi.push(b);
    proof {
        assert(half == (controls@.len() + 1) / 2);
        assert(lo@ =~= controls@.take(half as int));
        assert(hi@ =~= controls@.skip(half as int).push(b));
    }
    let ghost start = lines_v(out@);
    emit_mcx(out, n_qubits, lo.as_slice(), b);
    emit_mcx(out, n_qubits, hi.as_slice(), target);
    emit_mcx(out, n_qubits, lo.as_slice(), b);
    emit_mcx(out, n_qubits, hi.as_slice(), target);
    proof {
        let p1 = mcx_plan(n_qubits as nat, lo@, b);
        let p2 = mcx_plan(n_qubits as nat, hi@, target);
        assert(lines_v(out@) =~= start + ((p1 + p2) + (p1 + p2)));
    }
}

/// The square-root decomposition of a multi-controlled X with three or more
/// controls and no qubit to borrow.
fn emit_mcx_root(out: &mut Vec<QasmLine>, n_qubits: usize, controls: &[usize], target: usize)
    requires
        controls@.len() >= 3,
    ensures
        lines_v(final(out)@) == lines_v(old(out)@) + ({
            let last = controls@.last();
            let rest = controls@.drop_last();
            seq![QasmLineV::ControlledU { gate: GateV::SX, control: last, target }] + mcx_plan(n_qubits as nat, rest, last)
                + seq![QasmLineV::ControlledU { gate: GateV::SXdg, control: last, target }] + mcx_plan(
                n_qubits as nat,
                rest,
                last,
            ) + seq![QasmLineV::MultiU { gate: GateV::SX, controls: rest, target }]
        }),
    decreases controls@.len(), 0nat,
{
    let m = controls.len();
    let last = controls[m - 1];
    let rest = slice_of(controls, 0, m - 1);
    proof {
        assert(rest@ =~= controls@.drop_last());
    }
    let ghost start = lines_v(out@);
    push_line(out, QasmLine::ControlledU { gate: Gate::SX, control: last, target });
    let ghost s1 = lines_v(out@);
    emit_mcx(out, n_qubits, rest.as_slice(), last);
    let ghost s2 = lines_v(out@);
    push_line(out, QasmLine::ControlledU { gate: Gate::SXdg, control: last, target });
    let ghost s3 = lines_v(out@);
    emit_mcx(out, n_qubits, rest.as_slice(), last);
    let ghost s4 = lines_v(out@);
    let r2 = crate::circuit::copy_usizes(rest.as_slice());
    push_line(out, QasmLine::MultiU { gate: Gate::SX, controls: r2, target });
    proof {
        let inner = mcx_plan(n_qubits as nat, rest@, last);
        let a = seq![QasmLineV::ControlledU { gate: GateV::SX, control: last, target }];
        let c = seq![QasmLineV::ControlledU { gate: GateV::SXdg, control: last, target }];
        let d = seq![QasmLineV::MultiU { gate: GateV::SX, controls: rest@, target }];
        assert(s1 =~= start + a);
        assert(s2 =~= start + a + inner);
        assert(s3 =~= start + a + inner + c);
        assert(s4 =~= start + a + inner + c + inner);
        assert(lines_v(out@) =~= start + (a + inner + c + inner + d));
    }
}


/// The OpenQASM name of a single-qubit gate, by its label.
pub open spec fn single_name(l: Label) -> Option<Seq<char>> {
    match l {
        Label::I => Some("id"@),
        Label::H => Some("h"@),
        Label::X => Some("x"@),
        Label::Y => Some("y"@),
        Label::Z => Some("z"@),
        Label::S => Some("s"@),
        Label::T => Some("t"@),
        Label::SDG => Some("sdg"@),
        Label::SX => Some("sx"@),
        Label::SXDG => Some("sxdg"@),
        Label::TDG => Some("tdg"@),
        Label::P => Some("u1"@),
        Label::U2 => Some("u2"@),
        Label::U3 => Some("u3"@),
        Label::RX => Some("rx"@),
        Label::RY => Some("ry"@),
        Label::RZ => Some("rz"@),
        _ => None,
    }
}

/// The angles a gate is written with.
pub open spec fn gate_params(g: GateV) -> Seq<AngleV> {
    match g {
        GateV::P(a) => seq![a],
        GateV::U2(a, b) => seq![a, b],
        GateV::U3(a, b, c) => seq![a, b, c],
        GateV::RX(a) => seq![a],
        GateV::RY(a) => seq![a],
        GateV::RZ(a) => seq![a],
        _ => Seq::empty(),
    }
}

/// The statement of a controlled gate, by its label: a named gate where
/// OpenQASM has one, otherwise its decomposition.
pub open spec fn controlled_line(gate: GateV, c: usize, t: usize, label: Label) -> QasmLineV {
    match label {
        Label::X => plain("cx"@, seq![c, t]),
        Label::Y => plain("cy"@, seq![c, t]),
        Label::Z => plain("cz"@, seq![c, t]),
        Label::H => plain("ch"@, seq![c, t]),
        Label::CRZ => QasmLineV::Gate { name: "crz"@, params: gate_params(gate), qubits: seq![c, t] },
        Label::CP => QasmLineV::Gate { name: "cu1"@, params: gate_params(gate), qubits: seq![c, t] },
        Label::CU3 => QasmLineV::Gate { name: "cu3"@, params: gate_params(gate), qubits: seq![c, t] },
        _ => QasmLineV::ControlledU { gate, control: c, target: t },
    }
}

/// The statements of a gate or channel on a register of `n` qubits.
pub open spec fn gate_op_plan(n: nat, g: GateOpV) -> Result<Seq<QasmLineV>, ExportErrorV> {
    match g {
        GateOpV::Single { gate, target, label } => match single_name(label) {
            Some(nm) => Ok(seq![QasmLineV::Gate { name: nm, params: gate_params(gate), qubits: seq![target] }]),
            None => Err(ExportErrorV::SingleGate(label_text(label))),
        },
        GateOpV::Controlled { gate, control, target, label } => Ok(seq![controlled_line(gate, control, target, label)]),
        GateOpV::Swap { a, b } => Ok(seq![plain("swap"@, seq![a, b])]),
        GateOpV::MultiControlled { gate, controls, target, label } => if label == Label::X {
            Ok(mcx_plan(n, controls, target))
        } else {
            Ok(seq![QasmLineV::MultiU { gate, controls, target }])
        },
        GateOpV::Kraus { .. } => Err(ExportErrorV::Noise),
    }
}

/// `lines`, each under `guard`.
pub open spec fn guarded_lines(lines: Seq<QasmLineV>, guard: Option<u64>) -> Seq<QasmStmtV> {
    lines.map_values(|l: QasmLineV| QasmStmtV { guard, line: l })
}

/// The statements of a conditional block's gates, each guarded by `value`.
pub open spec fn block_plan(n: nat, ops: Seq<GateOpV>, value: u64) -> Result<Seq<QasmStmtV>, ExportErrorV>
    decreases ops.len(),
{
    if ops.len() == 0 {
        Ok(Seq::empty())
    } else {
        match block_plan(n, ops.drop_last(), value) {
            Err(e) => Err(e),
            Ok(p) => match gate_op_plan(n, ops.last()) {
                Err(e) => Err(e),
                Ok(ls) => Ok(p + guarded_lines(ls, Some(value))),
            },
        }
    }
}

/// A statement written out in full, unguarded.
pub open spec fn text(t: Seq<char>) -> QasmStmtV {
    QasmStmtV { guard: None, line: QasmLineV::Text(t) }
}

/// The statements of one operation.
pub open spec fn op_plan(n: nat, op: OpV) -> Result<Seq<QasmStmtV>, ExportErrorV> {
    match op {
        OpV::Gate(g) => match gate_op_plan(n, g) {
            Err(e) => Err(e),
            Ok(ls) => Ok(guarded_lines(ls, None)),
        },
        OpV::Measure { qubit, clbit } => Ok(seq![text("measure q["@ + decimal(qubit as nat) + "] -> c["@ + decimal(clbit as nat) + "];"@)]),
        OpV::Reset { qubit } => Ok(seq![text("reset q["@ + decimal(qubit as nat) + "];"@)]),
        OpV::Conditional { value, ops } => block_plan(n, ops, value),
    }
}

/// The statements of `ops`, in order; the first operation that cannot be
/// written fails the export.
pub open spec fn ops_plan(n: nat, ops: Seq<OpV>) -> Result<Seq<QasmStmtV>, ExportErrorV>
    decreases ops.len(),
{
    if ops.len() == 0 {
        Ok(Seq::empty())
    } else {
        match ops_plan(n, ops.drop_last()) {
            Err(e) => Err(e),
            Ok(p) => match op_plan(n, ops.last()) {
                Err(e) => Err(e),
                Ok(q) => Ok(p + q),
            },
        }
    }
}

/// The header: version, the standard include, the quantum register, and a
/// classical register as wide when anything measures or reads it.
pub open spec fn header(c: CircuitV) -> Seq<QasmStmtV> {
    let n = decimal(c.n_qubits as nat);
    let base = seq![
        text("OPENQASM 2.0;"@),
        text("include \"qelib1.inc\";"@),
        text("qreg q["@ + n + "];"@),
    ];
    if any_measure(c.ops) || any_conditional(c.ops) {
        base.push(text("creg c["@ + n + "];"@))
    } else {
        base
    }
}

/// The exported program of `c`, or why it has none.
pub open spec fn qasm_plan_spec(c: CircuitV) -> Result<Seq<QasmStmtV>, ExportErrorV> {
    match ops_plan(c.n_qubits as nat, c.ops) {
        Err(e) => Err(e),
        Ok(p) => Ok(header(c) + p),
    }
}

/// The text of a label, as a static string.
pub fn label_str(l: Label) -> (r: &'static str)
    ensures
        r@ == label_text(l),
{
    match l {
        Label::I => { proof { reveal_strlit("I"); } "I" },
        Label::H => { proof { reveal_strlit("H"); } "H" },
        Label::X => { proof { reveal_strlit("X"); } "X" },
        Label::Y => { proof { reveal_strlit("Y"); } "Y" },
        Label::Z => { proof { reveal_strlit("Z"); } "Z" },
        Label::S => { proof { reveal_strlit("S"); } "S" },
        Label::T => { proof { reveal_strlit("T"); } "T" },
        Label::SDG => { proof { reveal_strlit("SDG"); } "SDG" },
        Label::TDG => { proof { reveal_strlit("TDG"); } "TDG" },
        Label::SX => { proof { reveal_strlit("SX"); } "SX" },
        Label::SXDG => { proof { reveal_strlit("SXDG"); } "SXDG" },
        Label::P => { proof { reveal_strlit("P"); } "P" },
        Label::U3 => { proof { reveal_strlit("U3"); } "U3" },
        Label::U2 => { proof { reveal_strlit("U2"); } "U2" },
        Label::RX => { proof { reveal_strlit("RX"); } "RX" },
        Label::RY => { proof { reveal_strlit("RY"); } "RY" },
        Label::RZ => { proof { reveal_strlit("RZ"); } "RZ" },
        Label::U => { proof { reveal_strlit("U"); } "U" },
        Label::CRZ => { proof { reveal_strlit("CRZ"); } "CRZ" },
        Label::CP => { proof { reveal_strlit("CP"); } "CP" },
        Label::CU3 => { proof { reveal_strlit("CU3"); } "CU3" },
        Label::N => { proof { reveal_strlit("N"); } "N" },
        Label::DEP => { proof { reveal_strlit("DEP"); } "DEP" },
        Label::BF => { proof { reveal_strlit("BF"); } "BF" },
        Label::PF => { proof { reveal_strlit("PF"); } "PF" },
        Label::AD => { proof { reveal_strlit("AD"); } "AD" },
        Label::PD => { proof { reveal_strlit("PD"); } "PD" },
    }
}

/// The OpenQASM name of a single-qubit gate, by its label.
fn single_name_of(l: Label) -> (r: Option<&'static str>)
    ensures
        match r {
            Some(s) => single_name(l) == Some(s@),
            None => single_name(l) is None,
        },
{
    match l {
        Label::I => Some("id"),
        Label::H => Some("h"),
        Label::X => Some("x"),
        Label::Y => Some("y"),
        Label::Z => Some("z"),
        Label::S => Some("s"),
        Label::T => Some("t"),
        Label::SDG => Some("sdg"),
        Label::SX => Some("sx"),
        Label::SXDG => Some("sxdg"),
        Label::TDG => Some("tdg"),
        Label::P => Some("u1"),
        Label::U2 => Some("u2"),
        Label::U3 => Some("u3"),
        Label::RX => Some("rx"),
        Label::RY => Some("ry"),
        Label::RZ => Some("rz"),
        _ => None,
    }
}

/// The angles a gate is written with.
fn params_of(g: &Gate) -> (r: Vec<Angle>)
    ensures
        angles_v(r@) == gate_params(g@),
{
    let r = match g {
        Gate::P(a) => vec![a.duplicate()],
        Gate::U2(a, b) => vec![a.duplicate(), b.duplicate()],
        Gate::U3(a, b, c) => vec![a.duplicate(), b.duplicate(), c.duplicate()],
        Gate::RX(a) => vec![a.duplicate()],
        Gate::RY(a) => vec![a.duplicate()],
        Gate::RZ(a) => vec![a.duplicate()],
        _ => Vec::new(),
    };
    proof {
        assert(angles_v(r@) =~= gate_params(g@));
    }
    r
}

/// The statement of a controlled gate.
fn controlled_of(gate: &Gate, c: usize, t: usize, label: Label) -> (r: QasmLine)
    ensures
        r@ == controlled_line(gate@, c, t, label),
{
    let q = vec![c, t];
    proof {
        assert(q@ =~= seq![c, t]);
    }
    let none: Vec<Angle> = Vec::new();
    proof {
        assert(angles_v(none@) =~= Seq::<AngleV>::empty());
    }
    match label {
        Label::X => QasmLine::Gate { name: "cx", params: none, qubits: q },
        Label::Y => QasmLine::Gate { name: "cy", params: none, qubits: q },
        Label::Z => QasmLine::Gate { name: "cz", params: none, qubits: q },
        Label::H => QasmLine::Gate { name: "ch", params: none, qubits: q },
        Label::CRZ => QasmLine::Gate { name: "crz", params: params_of(gate), qubits: q },
        Label::CP => QasmLine::Gate { name: "cu1", params: params_of(gate), qubits: q },
        Label::CU3 => QasmLine::Gate { name: "cu3", params: params_of(gate), qubits: q },
        _ => QasmLine::ControlledU { gate: gate.duplicate(), control: c, target: t },
    }
}

/// Emit one gate or channel's statements.
pub fn emit_gate_op(out: &mut Vec<QasmLine>, n_qubits: usize, g: &GateOp) -> (r: Result<(), ExportError>)
    ensures
        match r {
            Ok(()) => gate_op_plan(n_qubits as nat, g@) matches Ok(ls) && lines_v(final(out)@) == lines_v(old(out)@) + ls,
            Err(e) => gate_op_plan(n_qubits as nat, g@) == Err::<Seq<QasmLineV>, ExportErrorV>(e@),
        },
{
    match g {
        GateOp::Single { gate, target, label } => match single_name_of(*label) {
            Some(nm) => {
                let q = vec![*target];
                proof {
                    assert(q@ =~= seq![*target]);
                }
                push_line(out, QasmLine::Gate { name: nm, params: params_of(gate), qubits: q });
                Ok(())
            },
            None => Err(ExportError::SingleGate { label: label_str(*label) }),
        },
        GateOp::Controlled { gate, control, target, label } => {
            push_line(out, controlled_of(gate, *control, *target, *label));
            Ok(())
        },
        GateOp::Swap { a, b } => {
            let q = vec![*a, *b];
            proof {
                assert(q@ =~= seq![*a, *b]);
            }
            push_plain(out, "swap", q);
            Ok(())
        },
        GateOp::MultiControlled { gate, controls, target, label } => {
            if *label == Label::X {
                emit_mcx(out, n_qubits, controls.as_slice(), *target);
            } else {
                push_line(out, QasmLine::MultiU {
                    gate: gate.duplicate(),
                    controls: crate::circuit::copy_usizes(controls.as_slice()),
                    target: *target,
                });
            }
            Ok(())
        },
        GateOp::Kraus { .. } => Err(ExportError::Noise),
    }
}

/// Append `lines`, each under `guard`.
fn push_guarded(out: &mut Vec<QasmStmt>, lines: Vec<QasmLine>, guard: Option<u64>)
    ensures
        stmts_v(final(out)@) == stmts_v(old(out)@) + guarded_lines(lines_v(lines@), guard),
{
    let ghost orig = lines@;
    let ghost start = stmts_v(out@);
    let mut rest = lines;
    let total = rest.len();
    let mut k: usize = 0;
    proof {
        assert(orig.skip(0) =~= orig);
        assert(guarded_lines(lines_v(orig.take(0)), guard) =~= Seq::<QasmStmtV>::empty());
        assert(start + Seq::<QasmStmtV>::empty() =~= start);
    }
    while rest.len() > 0
        invariant
            k + rest@.len() == orig.len(),
            total == orig.len(),
            rest@ == orig.skip(k as int),
            stmts_v(out@) == start + guarded_lines(lines_v(orig.take(k as int)), guard),
        decreases rest@.len(),
    {
        let ghost old_rest = rest@;
        let line = rest.remove(0);
        proof {
            assert(line == orig[k as int]);
            assert(rest@ =~= orig.skip(k + 1));
        }
        let ghost before = stmts_v(out@);
        let st = QasmStmt { guard, line };
        let ghost sv = st@;
        out.push(st);
        proof {
            assert(stmts_v(out@) =~= before.push(sv));
            assert(guarded_lines(lines_v(orig.take(k + 1)), guard) =~= guarded_lines(lines_v(orig.take(k as int)), guard).push(sv));
        }
        k = k + 1;
    }
    proof {
        assert(orig.take(k as int) =~= orig);
    }
}

/// A statement written out in full, unguarded.
fn push_text(out: &mut Vec<QasmStmt>, t: Vec<char>)
    ensures
        stmts_v(final(out)@) == stmts_v(old(out)@).push(text(t@)),
{
    let ghost before = stmts_v(out@);
    let ghost tv = t@;
    out.push(QasmStmt { guard: None, line: QasmLine::Text(t) });
    proof {
        assert(stmts_v(out@) =~= before.push(text(tv)));
    }
}

/// Emit one operation's statements.
pub fn emit_op(out: &mut Vec<QasmStmt>, n_qubits: usize, op: &Op) -> (r: Result<(), ExportError>)
    ensures
        match r {
            Ok(()) => op_plan(n_qubits as nat, op@) matches Ok(p) && stmts_v(final(out)@) == stmts_v(old(out)@) + p,
            Err(e) => op_plan(n_qubits as nat, op@) == Err::<Seq<QasmStmtV>, ExportErrorV>(e@),
        },
{
    match op {
        Op::Gate(g) => {
            let mut lines: Vec<QasmLine> = Vec::new();
            emit_gate_op(&mut lines, n_qubits, g)?;
            proof {
                assert(lines_v(Seq::<QasmLine>::empty()) =~= Seq::<QasmLineV>::empty());
                assert(Seq::<QasmLineV>::empty() + lines_v(lines@) =~= lines_v(lines@));
            }
            push_guarded(out, lines, None);
            Ok(())
        },
        Op::Measure { qubit, clbit } => {
            let mut t = chars_of("measure q[");
            push_decimal(&mut t, *qubit as u64);
            push_all(&mut t, chars_of("] -> c[").as_slice());
            push_decimal(&mut t, *clbit as u64);
            push_all(&mut t, chars_of("];").as_slice());
            push_text(out, t);
            Ok(())
        },
        Op::Reset { qubit } => {
            let mut t = chars_of("reset q[");
            push_decimal(&mut t, *qubit as u64);
            push_all(&mut t, chars_of("];").as_slice());
            push_text(out, t);
            Ok(())
        },
        Op::Conditional { value, ops } => {
            let ghost gv = ops@.map_values(|g: GateOp| g@);
            let ghost start = stmts_v(out@);
            let mut k: usize = 0;
            proof {
                assert(gv.take(0) =~= Seq::<GateOpV>::empty());
                assert(start + Seq::<QasmStmtV>::empty() =~= start);
            }
            while k < ops.len()
                invariant
                    k <= ops@.len(),
                    gv == ops@.map_values(|g: GateOp| g@),
                    op@ == (OpV::Conditional { value: *value, ops: gv }),
                    block_plan(n_qubits as nat, gv.take(k as int), *value) matches Ok(p) && stmts_v(out@) == start + p,
                decreases ops@.len() - k,
            {
                let mut lines: Vec<QasmLine> = Vec::new();
                let res = emit_gate_op(&mut lines, n_qubits, &ops[k]);
                proof {
                    assert(gv.take(k + 1).drop_last() =~= gv.take(k as int));
                    assert(gv.take(k + 1).last() == ops@[k as int]@);
                }
                match res {
                    Err(e) => {
                        proof {
                            lemma_block_error(n_qubits as nat, gv, k as int, *value);
                        }
                        return Err(e);
                    },
                    Ok(()) => {},
                }
                proof {
                    assert(Seq::<QasmLineV>::empty() + lines_v(lines@) =~= lines_v(lines@));
                }
                push_guarded(out, lines, Some(*value));
                proof {
                    let p = block_plan(n_qubits as nat, gv.take(k as int), *value)->Ok_0;
                    let ls = gate_op_plan(n_qubits as nat, gv[k as int])->Ok_0;
                    assert(stmts_v(out@) =~= start + (p + guarded_lines(ls, Some(*value))));
                }
                k = k + 1;
            }
            proof {
                assert(gv.take(ops@.len() as int) =~= gv);
            }
            Ok(())
        },
    }
}

/// An error in a block's `k`-th gate is the block's error, when the gates
/// before it are fine.
pub proof fn lemma_block_error(n: nat, gv: Seq<GateOpV>, k: int, value: u64)
    requires
        0 <= k < gv.len(),
        block_plan(n, gv.take(k), value) is Ok,
        gate_op_plan(n, gv[k]) is Err,
    ensures
        block_plan(n, gv, value) == Err::<Seq<QasmStmtV>, ExportErrorV>(gate_op_plan(n, gv[k])->Err_0),
    decreases gv.len() - k,
{
    assert(gv.take(k + 1).drop_last() =~= gv.take(k));
    assert(gv.take(k + 1).last() == gv[k]);
    lemma_block_prefix_error(n, gv, k + 1, value);
}

/// Once a prefix of a block fails, the whole block fails the same way.
pub proof fn lemma_block_prefix_error(n: nat, gv: Seq<GateOpV>, j: int, value: u64)
    requires
        0 <= j <= gv.len(),
        block_plan(n, gv.take(j), value) is Err,
    ensures
        block_plan(n, gv, value) == block_plan(n, gv.take(j), value),
    decreases gv.len() - j,
{
    if j < gv.len() {
        assert(gv.take(j + 1).drop_last() =~= gv.take(j));
        lemma_block_prefix_error(n, gv, j + 1, value);
    } else {
        assert(gv.take(j) =~= gv);
    }
}


/// Once a prefix of the operations fails to export, the whole list fails the
/// same way.
pub proof fn lemma_ops_prefix_error(n: nat, ov: Seq<OpV>, j: int)
    requires
        0 <= j <= ov.len(),
        ops_plan(n, ov.take(j)) is Err,
    ensures
        ops_plan(n, ov) == ops_plan(n, ov.take(j)),
    decreases ov.len() - j,
{
    if j < ov.len() {
        assert(ov.take(j + 1).drop_last() =~= ov.take(j));
        lemma_ops_prefix_error(n, ov, j + 1);
    } else {
        assert(ov.take(j) =~= ov);
    }
}

impl Circuit {
    /// The OpenQASM 2.0 program this circuit exports as, statement by
    /// statement with the angles not yet printed; or why it cannot be
    /// exported (a noise channel, or a single-qubit gate with no OpenQASM
    /// name).
    pub fn qasm_plan(&self) -> (r: Result<Vec<QasmStmt>, ExportError>)
        ensures
            match r {
                Ok(v) => qasm_plan_spec(self@) == Ok::<Seq<QasmStmtV>, ExportErrorV>(stmts_v(v@)),
                Err(e) => qasm_plan_spec(self@) == Err::<Seq<QasmStmtV>, ExportErrorV>(e@),
            },
    {
        let n = self.n_qubits();
        let mut out: Vec<QasmStmt> = Vec::new();
        proof {
            assert(stmts_v(out@) =~= Seq::<QasmStmtV>::empty());
        }
        push_text(&mut out, chars_of("OPENQASM 2.0;"));
        push_text(&mut out, chars_of("include \"qelib1.inc\";"));
        let mut t = chars_of("qreg q[");
        push_decimal(&mut t, n as u64);
        push_all(&mut t, chars_of("];").as_slice());
        push_text(&mut out, t);
        if self.has_measurement() || self.has_conditional() {
            let mut t2 = chars_of("creg c[");
            push_decimal(&mut t2, n as u64);
            push_all(&mut t2, chars_of("];").as_slice());
            push_text(&mut out, t2);
        }
        let ghost head = stmts_v(out@);
        proof {
            assert(head =~= header(self@));
        }
        let ops = self.ops();
        let ghost ov = self@.ops;
        let mut k: usize = 0;
        proof {
            assert(ov.take(0) =~= Seq::<OpV>::empty());
            assert(head + Seq::<QasmStmtV>::empty() =~= head);
        }
        while k < ops.len()
            invariant
                k <= ops@.len(),
                ov == self@.ops,
                ov == ops@.map_values(|o: Op| o@),
                head == header(self@),
                n == self@.n_qubits,
                ops_plan(n as nat, ov.take(k as int)) matches Ok(p) && stmts_v(out@) == head + p,
            decreases ops@.len() - k,
        {
            let ghost before = stmts_v(out@);
            let res = emit_op(&mut out, n, &ops[k]);
            proof {
                assert(ov.take(k + 1).drop_last() =~= ov.take(k as int));
                assert(ov.take(k + 1).last() == ops@[k as int]@);
            }
            match res {
                Err(e) => {
                    proof {
                        lemma_ops_prefix_error(n as nat, ov, k + 1);
                    }
                    return Err(e);
                },
                Ok(()) => {},
            }
            proof {
                let p = ops_plan(n as nat, ov.take(k as int))->Ok_0;
                let q = op_plan(n as nat, ov[k as int])->Ok_0;
                assert(stmts_v(out@) =~= head + (p + q));
            }
            k = k + 1;
        }
        proof {
            assert(ov.take(ops@.len() as int) =~= ov);
        }
        Ok(out)
    }
}

} // verus!
