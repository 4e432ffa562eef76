//! ASCII circuit diagrams.
//!
//! One column per operation, time flowing left to right, with qubit `q0` on
//! the top row. Controls are drawn as `*`, targets as their gate label, SWAP
//! endpoints as `x`, measurements as `M`, resets as `R`, the gates of a
//! conditional as `?`, and `|` connects the qubits an operation spans.
use vstd::prelude::*;
use crate::circuit::{Circuit, CircuitV, GateOp, GateOpV, Label, Op, OpV};
use crate::text::{decimal, push_decimal};

verus! {

/// A mark in one cell of a diagram column.
#[derive(Debug, Clone, Copy, PartialEq, Eq, Structural)]
pub enum Tok {
    /// A gate's label.
    Gate(Label),
    /// A control, `*`.
    Star,
    /// A SWAP endpoint, `x`.
    Cross,
    /// A measurement, `M`.
    Meas,
    /// A conditional gate, `?`.
    Query,
    /// A reset, `R`.
    Reset,
    /// A connector, `|`.
    Bar,
}

/// The text of a label.
pub open spec fn label_text(l: Label) -> Seq<char> {
    match l {
        Label::I => seq!['I'],
        Label::H => seq!['H'],
        Label::X => seq!['X'],
        Label::Y => seq!['Y'],
        Label::Z => seq!['Z'],
        Label::S => seq!['S'],
        Label::T => seq!['T'],
        Label::SDG => seq!['S', 'D', 'G'],
        Label::TDG => seq!['T', 'D', 'G'],
        Label::SX => seq!['S', 'X'],
        Label::SXDG => seq!['S', 'X', 'D', 'G'],
        Label::P => seq!['P'],
        Label::U3 => seq!['U', '3'],
        Label::U2 => seq!['U', '2'],
        Label::RX => seq!['R', 'X'],
        Label::RY => seq!['R', 'Y'],
        Label::RZ => seq!['R', 'Z'],
        Label::U => seq!['U'],
        Label::CRZ => seq!['C', 'R', 'Z'],
        Label::CP => seq!['C', 'P'],
        Label::CU3 => seq!['C', 'U', '3'],
        Label::N => seq!['N'],
        Label::DEP => seq!['D', 'E', 'P'],
        Label::BF => seq!['B', 'F'],
        Label::PF => seq!['P', 'F'],
        Label::AD => seq!['A', 'D'],
        Label::PD => seq!['P', 'D'],
    }
}

/// The text of a mark.
pub open spec fn tok_text(t: Tok) -> Seq<char> {
    match t {
        Tok::Gate(l) => label_text(l),
        Tok::Star => seq!['*'],
        Tok::Cross => seq!['x'],
        Tok::Meas => seq!['M'],
        Tok::Query => seq!['?'],
        Tok::Reset => seq!['R'],
        Tok::Bar => seq!['|'],
    }
}

/// The text of a cell: its mark, or nothing for a plain wire.
pub open spec fn cell_text(c: Option<Tok>) -> Seq<char> {
    match c {
        Some(t) => tok_text(t),
        None => Seq::empty(),
    }
}

/// The text of a label.
pub fn label_chars(l: Label) -> (r: Vec<char>)
    ensures
        r@ == label_text(l),
{
    let r = match l {
        Label::I => vec!['I'],
        Label::H => vec!['H'],
        Label::X => vec!['X'],
        Label::Y => vec!['Y'],
        Label::Z => vec!['Z'],
        Label::S => vec!['S'],
        Label::T => vec!['T'],
        Label::SDG => vec!['S', 'D', 'G'],
        Label::TDG => vec!['T', 'D', 'G'],
        Label::SX => vec!['S', 'X'],
        Label::SXDG => vec!['S', 'X', 'D', 'G'],
        Label::P => vec!['P'],
        Label::U3 => vec!['U', '3'],
        Label::U2 => vec!['U', '2'],
        Label::RX => vec!['R', 'X'],
        Label::RY => vec!['R', 'Y'],
        Label::RZ => vec!['R', 'Z'],
        Label::U => vec!['U'],
        Label::CRZ => vec!['C', 'R', 'Z'],
        Label::CP => vec!['C', 'P'],
        Label::CU3 => vec!['C', 'U', '3'],
        Label::N => vec!['N'],
        Label::DEP => vec!['D', 'E', 'P'],
        Label::BF => vec!['B', 'F'],
        Label::PF => vec!['P', 'F'],
        Label::AD => vec!['A', 'D'],
        Label::PD => vec!['P', 'D'],
    };
    proof {
        assert(r@ =~= label_text(l));
    }
    r
}

/// The text of a cell.
pub fn cell_chars(c: Option<Tok>) -> (r: Vec<char>)
    ensures
        r@ == cell_text(c),
{
    let r = match c {
        Some(Tok::Gate(l)) => label_chars(l),
        Some(Tok::Star) => vec!['*'],
        Some(Tok::Cross) => vec!['x'],
        Some(Tok::Meas) => vec!['M'],
        Some(Tok::Query) => vec!['?'],
        Some(Tok::Reset) => vec!['R'],
        Some(Tok::Bar) => vec!['|'],
        None => Vec::new(),
    };
    proof {
        assert(r@ =~= cell_text(c));
    }
    r
}

/// The smallest of a nonempty sequence.
pub open spec fn seq_min(s: Seq<usize>) -> usize
    decreases s.len(),
{
    if s.len() <= 1 {
        s[0]
    } else {
        let m = seq_min(s.drop_last());
        if s.last() < m { s.last() } else { m }
    }
}

/// The largest of a nonempty sequence.
pub open spec fn seq_max(s: Seq<usize>) -> usize
    decreases s.len(),
{
    if s.len() <= 1 {
        s[0]
    } else {
        let m = seq_max(s.drop_last());
        if s.last() > m { s.last() } else { m }
    }
}

/// Mark the plain-wire rows strictly between the outermost `involved` qubits
/// with a connector.
pub open spec fn connect(col: Seq<Option<Tok>>, involved: Seq<usize>) -> Seq<Option<Tok>> {
    let lo = seq_min(involved);
    let hi = seq_max(involved);
    Seq::new(col.len(), |r: int| if lo < r < hi && col[r] is None { Some(Tok::Bar) } else { col[r] })
}

/// `col` with every row in `rows` set to `t`.
pub open spec fn mark_all(col: Seq<Option<Tok>>, rows: Seq<usize>, t: Tok) -> Seq<Option<Tok>>
    decreases rows.len(),
{
    if rows.len() == 0 {
        col
    } else {
        mark_all(col, rows.drop_last(), t).update(rows.last() as int, Some(t))
    }
}

/// The qubit a conditional block marks for one of its gates.
pub open spec fn primary(g: GateOpV) -> usize {
    match g {
        GateOpV::Single { target, .. } => target,
        GateOpV::Controlled { target, .. } => target,
        GateOpV::MultiControlled { target, .. } => target,
        GateOpV::Swap { a, .. } => a,
        GateOpV::Kraus { qubit, .. } => qubit,
    }
}

/// The column a gate draws over `n` rows.
pub open spec fn gate_column(g: GateOpV, n: nat) -> Seq<Option<Tok>> {
    let blank = Seq::new(n, |r: int| None::<Tok>);
    match g {
        GateOpV::Single { target, label, .. } => blank.update(target as int, Some(Tok::Gate(label))),
        GateOpV::Controlled { control, target, label, .. } => connect(
            blank.update(control as int, Some(Tok::Star)).update(target as int, Some(Tok::Gate(label))),
            seq![control, target],
        ),
        GateOpV::Swap { a, b } => connect(
            blank.update(a as int, Some(Tok::Cross)).update(b as int, Some(Tok::Cross)),
            seq![a, b],
        ),
        GateOpV::MultiControlled { controls, target, label, .. } => connect(
            mark_all(blank, controls, Tok::Star).update(target as int, Some(Tok::Gate(label))),
            controls.push(target),
        ),
        GateOpV::Kraus { qubit, label, .. } => blank.update(qubit as int, Some(Tok::Gate(label))),
    }
}

/// The column an operation draws over `n` rows.
pub open spec fn op_column(op: OpV, n: nat) -> Seq<Option<Tok>> {
    let blank = Seq::new(n, |r: int| None::<Tok>);
    match op {
        OpV::Gate(g) => gate_column(g, n),
        OpV::Measure { qubit, .. } => blank.update(qubit as int, Some(Tok::Meas)),
        OpV::Reset { qubit } => blank.update(qubit as int, Some(Tok::Reset)),
        OpV::Conditional { ops, .. } => mark_all(blank, ops.map_values(|g: GateOpV| primary(g)), Tok::Query),
    }
}

/// Every entry of `s` is below `n`.
pub open spec fn all_below(s: Seq<usize>, n: nat) -> bool {
    forall|i: int| 0 <= i < s.len() ==> #[trigger] s[i] < n
}

/// Every column is taller than `r`.
pub open spec fn all_taller(cols: Seq<Seq<Option<Tok>>>, r: nat) -> bool {
    forall|i: int| 0 <= i < cols.len() ==> #[trigger] cols[i].len() > r
}

/// Every gate of `ops` names only qubits below `n`.
pub open spec fn gates_in_range(ops: Seq<GateOpV>, n: nat) -> bool {
    forall|i: int| 0 <= i < ops.len() ==> gate_in_range(#[trigger] ops[i], n)
}

/// Every qubit a gate names is below `n`.
pub open spec fn gate_in_range(g: GateOpV, n: nat) -> bool {
    match g {
        GateOpV::Single { target, .. } => target < n,
        GateOpV::Controlled { control, target, .. } => control < n && target < n,
        GateOpV::Swap { a, b } => a < n && b < n,
        GateOpV::MultiControlled { controls, target, .. } => target < n && all_below(controls, n),
        GateOpV::Kraus { qubit, .. } => qubit < n,
    }
}

/// Every qubit an operation names is below `n`.
pub open spec fn op_in_range(op: OpV, n: nat) -> bool {
    match op {
        OpV::Gate(g) => gate_in_range(g, n),
        OpV::Measure { qubit, .. } => qubit < n,
        OpV::Reset { qubit } => qubit < n,
        OpV::Conditional { ops, .. } => gates_in_range(ops, n),
    }
}

/// Every qubit the circuit names is in its register.
pub open spec fn in_range(c: CircuitV) -> bool {
    forall|i: int| 0 <= i < c.ops.len() ==> op_in_range(#[trigger] c.ops[i], c.n_qubits as nat)
}

/// The widest mark among `cols`.
pub open spec fn widest(cols: Seq<Seq<Option<Tok>>>) -> nat
    decreases cols.len(),
{
    if cols.len() == 0 {
        0
    } else {
        let w = widest(cols.drop_last());
        let c = widest_in(cols.last());
        if c > w { c } else { w }
    }
}

/// The widest mark in one column.
pub open spec fn widest_in(col: Seq<Option<Tok>>) -> nat
    decreases col.len(),
{
    if col.len() == 0 {
        0
    } else {
        let w = widest_in(col.drop_last());
        let c = cell_text(col.last()).len();
        if c > w { c } else { w }
    }
}

/// `k` copies of `c`.
pub open spec fn repeat(c: char, k: nat) -> Seq<char> {
    Seq::new(k, |i: int| c)
}

/// `token` centered in `width` cells, padded with wire (`-`).
pub open spec fn center(token: Seq<char>, width: nat) -> Seq<char> {
    if token.len() >= width {
        token
    } else {
        let pad = (width - token.len()) as nat;
        let left = pad / 2;
        repeat('-', left) + token + repeat('-', (pad - left) as nat)
    }
}

/// The qubit label `q{r}:`.
pub open spec fn qubit_label(r: nat) -> Seq<char> {
    seq!['q'] + decimal(r) + seq![':']
}

/// The wire of row `r` through `cols`, each cell `width` wide.
pub open spec fn cells(cols: Seq<Seq<Option<Tok>>>, r: int, width: nat) -> Seq<char>
    decreases cols.len(),
{
    if cols.len() == 0 {
        Seq::empty()
    } else {
        cells(cols.drop_last(), r, width) + center(cell_text(cols.last()[r]), width) + seq!['-']
    }
}

/// One row of the diagram.
pub open spec fn row(r: nat, cols: Seq<Seq<Option<Tok>>>, width: nat, gutter: nat) -> Seq<char> {
    let label = qubit_label(r);
    let padded = if label.len() < gutter { label + repeat(' ', (gutter - label.len()) as nat) } else { label };
    padded + seq![' ', '-'] + (if cols.len() == 0 { repeat('-', width) } else { Seq::empty() })
        + cells(cols, r as int, width)
}

/// Lines joined by newlines.
pub open spec fn join_lines(lines: Seq<Seq<char>>) -> Seq<char>
    decreases lines.len(),
{
    if lines.len() == 0 {
        Seq::empty()
    } else if lines.len() == 1 {
        lines[0]
    } else {
        join_lines(lines.drop_last()) + seq!['\n'] + lines.last()
    }
}

/// The diagram of a circuit.
pub open spec fn diagram_of(c: CircuitV) -> Seq<char> {
    let n = c.n_qubits as nat;
    let cols = c.ops.map_values(|o: OpV| op_column(o, n));
    let w = widest(cols);
    let width = if w == 0 { 1 } else { w };
    let gutter = qubit_label(if n == 0 { 0 } else { (n - 1) as nat }).len();
    join_lines(Seq::new(n, |r: int| row(r as nat, cols, width, gutter)))
}


/// A column of `n` plain wires.
fn blank(n: usize) -> (r: Vec<Option<Tok>>)
    ensures
        r@ == Seq::new(n as nat, |r: int| None::<Tok>),
{
    let mut r: Vec<Option<Tok>> = Vec::new();
    let mut k: usize = 0;
    while k < n
        invariant
            k <= n,
            r@ == Seq::new(k as nat, |r: int| None::<Tok>),
        decreases n - k,
    {
        r.push(None);
        k = k + 1;
        proof {
            assert(r@ =~= Seq::new(k as nat, |r: int| None::<Tok>));
        }
    }
    r
}

/// The smallest and largest of `s`.
fn min_max(s: &[usize]) -> (r: (usize, usize))
    requires
        s@.len() > 0,
    ensures
        r.0 == seq_min(s@),
        r.1 == seq_max(s@),
{
    let mut lo = s[0];
    let mut hi = s[0];
    let mut k: usize = 1;
    proof {
        assert(s@.take(1) =~= seq![s@[0]]);
    }
    while k < s.len()
        invariant
            1 <= k <= s@.len(),
            lo == seq_min(s@.take(k as int)),
            hi == seq_max(s@.take(k as int)),
        decreases s@.len() - k,
    {
        proof {
            assert(s@.take(k + 1).drop_last() == s@.take(k as int));
            assert(s@.take(k + 1).last() == s@[k as int]);
        }
        if s[k] < lo {
            lo = s[k];
        }
        if s[k] > hi {
            hi = s[k];
        }
        k = k + 1;
    }
    proof {
        assert(s@.take(s@.len() as int) == s@);
    }
    (lo, hi)
}

/// Mark the rows strictly between the outermost `involved` qubits (that are
/// not themselves marked) with a `|` connector.
pub fn fill_connector(col: &mut Vec<Option<Tok>>, involved: &[usize])
    requires
        involved@.len() > 0,
    ensures
        final(col)@ == connect(old(col)@, involved@),
{
    let (lo, hi) = min_max(involved);
    let ghost orig = col@;
    let mut r: usize = 0;
    while r < col.len()
        invariant
            r <= col@.len() == orig.len(),
            lo == seq_min(involved@),
            hi == seq_max(involved@),
            forall|i: int| 0 <= i < r ==> #[trigger] col@[i] == connect(orig, involved@)[i],
            forall|i: int| r <= i < col@.len() ==> #[trigger] col@[i] == orig[i],
        decreases col@.len() - r,
    {
        if r > lo && r < hi && col[r].is_none() {
            col.set(r, Some(Tok::Bar));
        }
        r = r + 1;
    }
    proof {
        assert(col@ =~= connect(orig, involved@));
    }
}

/// Set every row in `rows` to `t`, in order.
fn mark_rows(col: &mut Vec<Option<Tok>>, rows: &[usize], t: Tok)
    requires
        all_below(rows@, old(col)@.len()),
    ensures
        final(col)@ == mark_all(old(col)@, rows@, t),
        final(col)@.len() == old(col)@.len(),
{
    let ghost orig = col@;
    let mut k: usize = 0;
    while k < rows.len()
        invariant
            k <= rows@.len(),
            forall|i: int| 0 <= i < rows@.len() ==> #[trigger] rows@[i] < orig.len(),
            col@ == mark_all(orig, rows@.take(k as int), t),
            col@.len() == orig.len(),
        decreases rows@.len() - k,
    {
        proof {
            assert(rows@.take(k + 1).drop_last() == rows@.take(k as int));
            assert(rows@.take(k + 1).last() == rows@[k as int]);
        }
        col.set(rows[k], Some(t));
        k = k + 1;
    }
    proof {
        assert(rows@.take(rows@.len() as int) == rows@);
    }
}

/// The column a gate draws over `n` rows.
fn gate_col(g: &GateOp, n: usize) -> (r: Vec<Option<Tok>>)
    requires
        gate_in_range(g@, n as nat),
    ensures
        r@ == gate_column(g@, n as nat),
{
    let mut col = blank(n);
    match g {
        GateOp::Single { target, label, .. } => {
            col.set(*target, Some(Tok::Gate(*label)));
        },
        GateOp::Controlled { control, target, label, .. } => {
            col.set(*control, Some(Tok::Star));
            col.set(*target, Some(Tok::Gate(*label)));
            let inv = vec![*control, *target];
            proof { assert(inv@ =~= seq![*control, *target]); }
            fill_connector(&mut col, inv.as_slice());
        },
        GateOp::Swap { a, b } => {
            col.set(*a, Some(Tok::Cross));
            col.set(*b, Some(Tok::Cross));
            let inv = vec![*a, *b];
            proof { assert(inv@ =~= seq![*a, *b]); }
            fill_connector(&mut col, inv.as_slice());
        },
        GateOp::MultiControlled { gate, controls, target, label } => {
            proof {
                assert(g@ == GateOpV::MultiControlled { gate: gate@, controls: controls@, target: *target, label: *label });
                assert(all_below(controls@, n as nat));
            }
            mark_rows(&mut col, controls.as_slice(), Tok::Star);
            col.set(*target, Some(Tok::Gate(*label)));
            let mut inv = crate::circuit::copy_usizes(controls.as_slice());
            inv.push(*target);
            fill_connector(&mut col, inv.as_slice());
        },
        GateOp::Kraus { qubit, label, .. } => {
            col.set(*qubit, Some(Tok::Gate(*label)));
        },
    }
    col
}

/// The primary qubit of a gate.
fn primary_qubit(g: &GateOp) -> (r: usize)
    ensures
        r == primary(g@),
{
    match g {
        GateOp::Single { target, .. } => *target,
        GateOp::Controlled { target, .. } => *target,
        GateOp::MultiControlled { target, .. } => *target,
        GateOp::Swap { a, .. } => *a,
        GateOp::Kraus { qubit, .. } => *qubit,
    }
}

/// The column an operation draws over `n` rows.
fn op_col(op: &Op, n: usize) -> (r: Vec<Option<Tok>>)
    requires
        op_in_range(op@, n as nat),
    ensures
        r@ == op_column(op@, n as nat),
{
    match op {
        Op::Gate(g) => gate_col(g, n),
        Op::Measure { qubit, .. } => {
            let mut col = blank(n);
            col.set(*qubit, Some(Tok::Meas));
            col
        },
        Op::Reset { qubit } => {
            let mut col = blank(n);
            col.set(*qubit, Some(Tok::Reset));
            col
        },
        Op::Conditional { value, ops } => {
            proof {
                assert(op@ == OpV::Conditional { value: *value, ops: ops@.map_values(|g: GateOp| g@) });
            }
            let mut col = blank(n);
            let mut rows: Vec<usize> = Vec::new();
            let mut k: usize = 0;
            let ghost gv = ops@.map_values(|g: GateOp| g@);
            proof {
                assert(gates_in_range(gv, n as nat));
            }
            while k < ops.len()
                invariant
                    k <= ops@.len(),
                    gv == ops@.map_values(|g: GateOp| g@),
                    op@ is Conditional,
                    op@->Conditional_ops == gv,
                    gates_in_range(gv, n as nat),
                    rows@ == gv.map_values(|g: GateOpV| primary(g)).take(k as int),
                decreases ops@.len() - k,
            {
                rows.push(primary_qubit(&ops[k]));
                proof {
                    assert(gv.map_values(|g: GateOpV| primary(g)).take(k + 1) =~= gv.map_values(|g: GateOpV| primary(g)).take(k as int).push(primary(gv[k as int])));
                }
                k = k + 1;
            }
            proof {
                assert(gv.map_values(|g: GateOpV| primary(g)).take(ops@.len() as int) == gv.map_values(|g: GateOpV| primary(g)));
                assert forall|i: int| 0 <= i < rows@.len() implies #[trigger] rows@[i] < col@.len() by {
                    assert(gate_in_range(gv[i], n as nat));
                    assert(rows@[i] == primary(gv[i]));
                }
                assert(all_below(rows@, col@.len()));
            }
            mark_rows(&mut col, rows.as_slice(), Tok::Query);
            col
        },
    }
}

/// Center `token` in a field of `width`, padded with `-` (the wire).
pub fn center_token(token: &[char], width: usize) -> (r: Vec<char>)
    ensures
        r@ == center(token@, width as nat),
{
    let mut out: Vec<char> = Vec::new();
    if token.len() >= width {
        crate::text::push_all(&mut out, token);
        return out;
    }
    let pad = width - token.len();
    let left = pad / 2;
    let right = pad - left;
    push_repeat(&mut out, '-', left);
    crate::text::push_all(&mut out, token);
    push_repeat(&mut out, '-', right);
    out
}

/// Append `k` copies of `c`.
fn push_repeat(out: &mut Vec<char>, c: char, k: usize)
    ensures
        final(out)@ == old(out)@ + repeat(c, k as nat),
{
    let mut i: usize = 0;
    while i < k
        invariant
            i <= k,
            out@ == old(out)@ + repeat(c, i as nat),
        decreases k - i,
    {
        out.push(c);
        i = i + 1;
        proof {
            assert(out@ =~= old(out)@ + repeat(c, i as nat));
        }
    }
}

/// Whether every qubit of `v` is below `n`.
fn below_all(v: &[usize], n: usize) -> (r: bool)
    ensures
        r == all_below(v@, n as nat),
{
    let mut k: usize = 0;
    while k < v.len()
        invariant
            k <= v@.len(),
            forall|i: int| 0 <= i < k ==> #[trigger] v@[i] < n,
        decreases v@.len() - k,
    {
        if v[k] >= n {
            return false;
        }
        k = k + 1;
    }
    true
}

/// Whether every qubit a gate names is below `n`.
fn gate_within(g: &GateOp, n: usize) -> (r: bool)
    ensures
        r == gate_in_range(g@, n as nat),
{
    match g {
        GateOp::Single { target, .. } => *target < n,
        GateOp::Controlled { control, target, .. } => *control < n && *target < n,
        GateOp::Swap { a, b } => *a < n && *b < n,
        GateOp::MultiControlled { controls, target, .. } => *target < n && below_all(controls.as_slice(), n),
        GateOp::Kraus { qubit, .. } => *qubit < n,
    }
}

/// Whether every qubit an operation names is below `n`.
fn op_within(op: &Op, n: usize) -> (r: bool)
    ensures
        r == op_in_range(op@, n as nat),
{
    match op {
        Op::Gate(g) => gate_within(g, n),
        Op::Measure { qubit, .. } => *qubit < n,
        Op::Reset { qubit } => *qubit < n,
        Op::Conditional { ops, .. } => {
            let ghost gv = ops@.map_values(|g: GateOp| g@);
            let mut k: usize = 0;
            while k < ops.len()
                invariant
                    k <= ops@.len(),
                    gv == ops@.map_values(|g: GateOp| g@),
                    op@ is Conditional,
                    op@->Conditional_ops == gv,
                    forall|i: int| 0 <= i < k ==> gate_in_range(#[trigger] gv[i], n as nat),
                decreases ops@.len() - k,
            {
                if !gate_within(&ops[k], n) {
                    proof {
                        assert(gv[k as int] == ops@[k as int]@);
                        assert(!gate_in_range(gv[k as int], n as nat));
                        assert(!gates_in_range(gv, n as nat));
                    }
                    return false;
                }
                k = k + 1;
            }
            true
        },
    }
}

impl Circuit {
    /// Whether every qubit and every operation the circuit names is in its
    /// register, which drawing it needs.
    pub fn qubits_in_range(&self) -> (r: bool)
        ensures
            r == in_range(self@),
    {
        let n = self.n_qubits();
        let ops = self.ops();
        let ghost ov = ops@.map_values(|o: Op| o@);
        let mut k: usize = 0;
        while k < ops.len()
            invariant
                k <= ops@.len(),
                ov == self@.ops,
                ov == ops@.map_values(|o: Op| o@),
                n == self@.n_qubits,
                forall|i: int| 0 <= i < k ==> op_in_range(#[trigger] ov[i], n as nat),
            decreases ops@.len() - k,
        {
            if !op_within(&ops[k], n) {
                proof {
                    assert(ov[k as int] == ops@[k as int]@);
                    assert(!op_in_range(ov[k as int], n as nat));
                }
                return false;
            }
            k = k + 1;
        }
        true
    }
}

impl Circuit {
    /// Render the circuit as an ASCII diagram: one column per operation, time
    /// flowing left to right, `q0` on the top row.
    pub fn diagram(&self) -> (r: String)
        requires
            in_range(self@),
        ensures
            r@ == diagram_of(self@),
    {
        let n = self.n_qubits();
        let ops = self.ops();
        let ghost ov = ops@.map_values(|o: Op| o@);
        let ghost colsv = self@.ops.map_values(|o: OpV| op_column(o, n as nat));
        let mut columns: Vec<Vec<Option<Tok>>> = Vec::new();
        let mut k: usize = 0;
        while k < ops.len()
            invariant
                k <= ops@.len(),
                ov == self@.ops,
                ov == ops@.map_values(|o: Op| o@),
                n == self@.n_qubits,
                in_range(self@),
                colsv == self@.ops.map_values(|o: OpV| op_column(o, n as nat)),
                columns@.len() == k,
                forall|i: int| 0 <= i < k ==> #[trigger] columns@[i]@ == colsv[i],
            decreases ops@.len() - k,
        {
            proof {
                assert(op_in_range(self@.ops[k as int], n as nat));
            }
            columns.push(op_col(&ops[k], n));
            k = k + 1;
        }
        let ghost cv = columns@.map_values(|c: Vec<Option<Tok>>| c@);
        proof {
            assert(cv =~= colsv);
        }
        // Cell width: the widest mark present, at least 1.
        let mut w: usize = 0;
        let mut c: usize = 0;
        while c < columns.len()
            invariant
                c <= columns@.len(),
                cv == columns@.map_values(|c: Vec<Option<Tok>>| c@),
                w as nat == widest(cv.take(c as int)),
                w <= 4,
            decreases columns@.len() - c,
        {
            let col = &columns[c];
            let mut cw: usize = 0;
            let mut r: usize = 0;
            while r < col.len()
                invariant
                    r <= col@.len(),
                    cw as nat == widest_in(col@.take(r as int)),
                    cw <= 4,
                decreases col@.len() - r,
            {
                let t = cell_chars(col[r]);
                proof {
                    assert(col@.take(r + 1).drop_last() == col@.take(r as int));
                    assert(col@.take(r + 1).last() == col@[r as int]);
                    lemma_cell_width(col@[r as int]);
                }
                if t.len() > cw {
                    cw = t.len();
                }
                r = r + 1;
            }
            proof {
                assert(col@.take(col@.len() as int) == col@);
                assert(cv.take(c + 1).drop_last() == cv.take(c as int));
                assert(cv.take(c + 1).last() == col@);
            }
            if cw > w {
                w = cw;
            }
            c = c + 1;
        }
        proof {
            assert(cv.take(columns@.len() as int) == cv);
        }
        let width = if w == 0 { 1 } else { w };
        // Width of the `qN:` gutter, sized for the largest qubit index.
        let mut last_label: Vec<char> = vec!['q'];
        push_decimal(&mut last_label, if n == 0 { 0 } else { (n - 1) as u64 });
        last_label.push(':');
        let gutter = last_label.len();
        proof {
            assert(last_label@ =~= qubit_label(if n == 0 { 0 } else { (n - 1) as nat }));
        }
        proof {
            assert forall|i: int| 0 <= i < cv.len() implies #[trigger] cv[i].len() == n by {
                assert(op_in_range(self@.ops[i], n as nat));
                lemma_column_len(self@.ops[i], n as nat);
            }
        }
        let ghost lines = Seq::new(n as nat, |r: int| row(r as nat, cv, width as nat, gutter as nat));
        let mut out: Vec<char> = Vec::new();
        let mut r: usize = 0;
        while r < n
            invariant
                r <= n,
                cv == columns@.map_values(|c: Vec<Option<Tok>>| c@),
                forall|i: int| 0 <= i < cv.len() ==> #[trigger] cv[i].len() == n,
                lines == Seq::new(n as nat, |r: int| row(r as nat, cv, width as nat, gutter as nat)),
                out@ == join_lines(lines.take(r as int)),
            decreases n - r,
        {
            if r > 0 {
                out.push('\n');
            }
            proof {
                assert(all_taller(cv, r as nat));
            }
            let line = self.row_text(r, &columns, width, gutter);
            crate::text::push_all(&mut out, line.as_slice());
            proof {
                assert(lines.take(r + 1).drop_last() == lines.take(r as int));
                assert(lines.take(r + 1).last() == lines[r as int]);
                if r == 0 {
                    assert(lines.take(1) =~= seq![lines[0]]);
                }
            }
            r = r + 1;
        }
        proof {
            assert(lines.take(n as int) == lines);
            assert(cv == self@.ops.map_values(|o: OpV| op_column(o, n as nat)));
        }
        crate::text::string_of(out.as_slice())
    }

    /// One row of the diagram.
    fn row_text(&self, r: usize, columns: &Vec<Vec<Option<Tok>>>, width: usize, gutter: usize) -> (out: Vec<char>)
        requires
            all_taller(columns@.map_values(|c: Vec<Option<Tok>>| c@), r as nat),
        ensures
            out@ == row(r as nat, columns@.map_values(|c: Vec<Option<Tok>>| c@), width as nat, gutter as nat),
    {
        let ghost cv = columns@.map_values(|c: Vec<Option<Tok>>| c@);
        let mut out: Vec<char> = vec!['q'];
        push_decimal(&mut out, r as u64);
        out.push(':');
        proof {
            assert(out@ =~= qubit_label(r as nat));
        }
        if out.len() < gutter {
            let k = gutter - out.len();
            push_repeat(&mut out, ' ', k);
        }
        out.push(' ');
        out.push('-');
        if columns.len() == 0 {
            push_repeat(&mut out, '-', width);
        }
        let ghost head = out@;
        let mut c: usize = 0;
        while c < columns.len()
            invariant
                c <= columns@.len(),
                cv == columns@.map_values(|c: Vec<Option<Tok>>| c@),
                all_taller(cv, r as nat),
                out@ == head + cells(cv.take(c as int), r as int, width as nat),
            decreases columns@.len() - c,
        {
            proof {
                assert(cv[c as int].len() > r);
            }
            let t = cell_chars(columns[c][r]);
            let cell = center_token(t.as_slice(), width);
            crate::text::push_all(&mut out, cell.as_slice());
            out.push('-');
            proof {
                assert(cv.take(c + 1).drop_last() == cv.take(c as int));
                assert(cv.take(c + 1).last() == columns@[c as int]@);
                assert(out@ =~= head + cells(cv.take(c + 1), r as int, width as nat));
            }
            c = c + 1;
        }
        proof {
            assert(cv.take(columns@.len() as int) == cv);
        }
        out
    }
}

proof fn lemma_mark_all_len(col: Seq<Option<Tok>>, rows: Seq<usize>, t: Tok)
    requires
        all_below(rows, col.len()),
    ensures
        mark_all(col, rows, t).len() == col.len(),
    decreases rows.len(),
{
    if rows.len() > 0 {
        lemma_mark_all_len(col, rows.drop_last(), t);
    }
}

/// Every column is as tall as the register.
pub proof fn lemma_column_len(op: OpV, n: nat)
    requires
        op_in_range(op, n),
    ensures
        op_column(op, n).len() == n,
{
    let blank = Seq::new(n, |r: int| None::<Tok>);
    match op {
        OpV::Gate(g) => match g {
            GateOpV::MultiControlled { controls, .. } => {
                lemma_mark_all_len(blank, controls, Tok::Star);
            },
            _ => {},
        },
        OpV::Conditional { ops, .. } => {
            let rows = ops.map_values(|g: GateOpV| primary(g));
            assert forall|i: int| 0 <= i < rows.len() implies #[trigger] rows[i] < blank.len() by {
                assert(gate_in_range(ops[i], n));
            }
            assert(all_below(rows, blank.len()));
            lemma_mark_all_len(blank, rows, Tok::Query);
        },
        _ => {},
    }
}

/// A mark is at most four characters wide.
proof fn lemma_cell_width(c: Option<Tok>)
    ensures
        cell_text(c).len() <= 4,
{
}

// ---------------------------------------------------------------------------
// What a gate's column shows, row by row.
// ---------------------------------------------------------------------------

/// The qubits a gate names.
pub open spec fn named_qubits(g: GateOpV) -> Seq<usize> {
    match g {
        GateOpV::Single { target, .. } => seq![target],
        GateOpV::Controlled { control, target, .. } => seq![control, target],
        GateOpV::Swap { a, b } => seq![a, b],
        GateOpV::MultiControlled { controls, target, .. } => controls.push(target),
        GateOpV::Kraus { qubit, .. } => seq![qubit],
    }
}

/// Whether row `r` lies strictly between two of the qubits named by `g`.
pub open spec fn spanned(g: GateOpV, r: int) -> bool {
    let qs = named_qubits(g);
    exists|i: int, j: int| 0 <= i < qs.len() && 0 <= j < qs.len() && #[trigger] qs[i] < r && r < #[trigger] qs[j]
}

/// What a gate draws on row `r`: its label on its target, `*` on each
/// control, `x` on both ends of a swap, `|` on every other row strictly
/// between the qubits it names, and nothing elsewhere.
pub open spec fn drawn(g: GateOpV, r: usize) -> Option<Tok> {
    match g {
        GateOpV::Single { target, label, .. } => if r == target {
            Some(Tok::Gate(label))
        } else {
            None
        },
        GateOpV::Kraus { qubit, label, .. } => if r == qubit {
            Some(Tok::Gate(label))
        } else {
            None
        },
        GateOpV::Controlled { control, target, label, .. } => if r == target {
            Some(Tok::Gate(label))
        } else if r == control {
            Some(Tok::Star)
        } else if spanned(g, r as int) {
            Some(Tok::Bar)
        } else {
            None
        },
        GateOpV::Swap { a, b } => if r == a || r == b {
            Some(Tok::Cross)
        } else if spanned(g, r as int) {
            Some(Tok::Bar)
        } else {
            None
        },
        GateOpV::MultiControlled { controls, target, label, .. } => if r == target {
            Some(Tok::Gate(label))
        } else if controls.contains(r) {
            Some(Tok::Star)
        } else if spanned(g, r as int) {
            Some(Tok::Bar)
        } else {
            None
        },
    }
}

/// The smallest entry is an entry, and no entry is smaller.
proof fn lemma_seq_min(s: Seq<usize>)
    requires
        s.len() > 0,
    ensures
        s.contains(seq_min(s)),
        forall|i: int| 0 <= i < s.len() ==> seq_min(s) <= #[trigger] s[i],
    decreases s.len(),
{
    if s.len() > 1 {
        lemma_seq_min(s.drop_last());
        assert forall|i: int| 0 <= i < s.len() implies seq_min(s) <= #[trigger] s[i] by {
            if i < s.len() - 1 {
                assert(s[i] == s.drop_last()[i]);
            }
        }
        if seq_min(s) != s.last() {
            let k = choose|k: int| 0 <= k < s.drop_last().len() && s.drop_last()[k] == seq_min(s.drop_last());
            assert(s[k] == seq_min(s));
        } else {
            assert(s[s.len() - 1] == seq_min(s));
        }
    } else {
        assert(s[0] == seq_min(s));
    }
}

/// The largest entry is an entry, and no entry is larger.
proof fn lemma_seq_max(s: Seq<usize>)
    requires
        s.len() > 0,
    ensures
        s.contains(seq_max(s)),
        forall|i: int| 0 <= i < s.len() ==> #[trigger] s[i] <= seq_max(s),
    decreases s.len(),
{
    if s.len() > 1 {
        lemma_seq_max(s.drop_last());
        assert forall|i: int| 0 <= i < s.len() implies #[trigger] s[i] <= seq_max(s) by {
            if i < s.len() - 1 {
                assert(s[i] == s.drop_last()[i]);
            }
        }
        if seq_max(s) != s.last() {
            let k = choose|k: int| 0 <= k < s.drop_last().len() && s.drop_last()[k] == seq_max(s.drop_last());
            assert(s[k] == seq_max(s));
        } else {
            assert(s[s.len() - 1] == seq_max(s));
        }
    } else {
        assert(s[0] == seq_max(s));
    }
}

/// Marking rows sets exactly those rows.
proof fn lemma_mark_all_at(col: Seq<Option<Tok>>, rows: Seq<usize>, t: Tok, r: usize)
    requires
        all_below(rows, col.len()),
        0 <= r < col.len(),
    ensures
        mark_all(col, rows, t)[r as int] == if rows.contains(r) {
            Some(t)
        } else {
            col[r as int]
        },
    decreases rows.len(),
{
    if rows.len() > 0 {
        let init = rows.drop_last();
        assert(all_below(init, col.len())) by {
            assert forall|i: int| 0 <= i < init.len() implies #[trigger] init[i] < col.len() by {
                assert(init[i] == rows[i]);
            }
        }
        lemma_mark_all_at(col, init, t, r);
        lemma_mark_all_len(col, init, t);
        assert(rows.contains(r) == (init.contains(r) || rows.last() == r)) by {
            if rows.contains(r) {
                let k = choose|k: int| 0 <= k < rows.len() && rows[k] == r;
                if k < rows.len() - 1 {
                    assert(init[k] == rows[k]);
                }
            }
            if init.contains(r) {
                let k = choose|k: int| 0 <= k < init.len() && init[k] == r;
                assert(rows[k] == init[k]);
            }
        }
    }
}

/// Connecting fills exactly the empty rows strictly between two of the rows
/// it joins.
proof fn lemma_connect_at(col: Seq<Option<Tok>>, inv: Seq<usize>, r: int)
    requires
        inv.len() > 0,
        0 <= r < col.len(),
    ensures
        connect(col, inv)[r] == if col[r] is None && (exists|i: int, j: int|
            0 <= i < inv.len() && 0 <= j < inv.len() && #[trigger] inv[i] < r && r < #[trigger] inv[j]) {
            Some(Tok::Bar)
        } else {
            col[r]
        },
{
    lemma_seq_min(inv);
    lemma_seq_max(inv);
    let lo = seq_min(inv);
    let hi = seq_max(inv);
    let between = exists|i: int, j: int|
        0 <= i < inv.len() && 0 <= j < inv.len() && #[trigger] inv[i] < r && r < #[trigger] inv[j];
    if lo < r < hi {
        let i = choose|i: int| 0 <= i < inv.len() && inv[i] == lo;
        let j = choose|j: int| 0 <= j < inv.len() && inv[j] == hi;
        assert(inv[i] < r && r < inv[j]);
        assert(between);
    }
    if between {
        let (i, j) = choose|i: int, j: int|
            0 <= i < inv.len() && 0 <= j < inv.len() && #[trigger] inv[i] < r && r < #[trigger] inv[j];
        assert(lo <= inv[i] && inv[j] <= hi);
    }
}

/// On a register holding its qubits, every row of a gate's column shows what
/// what `g` draws there: its label on its target, `*` on each control, `x`
/// on both ends of a swap, a `|` on every row strictly between the lowest
/// and highest qubit it names that it does not use, and nothing on any
/// other row.
pub proof fn lemma_gate_column_rows(g: GateOpV, n: nat, r: usize)
    requires
        gate_in_range(g, n),
        r < n,
    ensures
        gate_column(g, n).len() == n,
        gate_column(g, n)[r as int] == drawn(g, r),
{
    let blank = Seq::new(n, |k: int| None::<Tok>);
    match g {
        GateOpV::Controlled { control, target, label, .. } => {
            let col = blank.update(control as int, Some(Tok::Star)).update(target as int, Some(Tok::Gate(label)));
            lemma_connect_at(col, seq![control, target], r as int);
            assert(named_qubits(g) == seq![control, target]);
        },
        GateOpV::Swap { a, b } => {
            let col = blank.update(a as int, Some(Tok::Cross)).update(b as int, Some(Tok::Cross));
            lemma_connect_at(col, seq![a, b], r as int);
            assert(named_qubits(g) == seq![a, b]);
        },
        GateOpV::MultiControlled { controls, target, label, .. } => {
            lemma_mark_all_len(blank, controls, Tok::Star);
            lemma_mark_all_at(blank, controls, Tok::Star, r);
            let col = mark_all(blank, controls, Tok::Star).update(target as int, Some(Tok::Gate(label)));
            lemma_connect_at(col, controls.push(target), r as int);
            assert(named_qubits(g) == controls.push(target));
        },
        _ => {},
    }
}

/// What an operation draws on row `r`: a gate as above, `M` on a measured
/// qubit, `R` on a reset one, and `?` on the qubit each gate of a
/// conditional block is drawn at.
pub open spec fn drawn_op(op: OpV, r: usize) -> Option<Tok> {
    match op {
        OpV::Gate(g) => drawn(g, r),
        OpV::Measure { qubit, .. } => if r == qubit {
            Some(Tok::Meas)
        } else {
            None
        },
        OpV::Reset { qubit } => if r == qubit {
            Some(Tok::Reset)
        } else {
            None
        },
        OpV::Conditional { ops, .. } => if exists|i: int| 0 <= i < ops.len() && #[trigger] primary(ops[i]) == r {
            Some(Tok::Query)
        } else {
            None
        },
    }
}

/// On a register holding its qubits, every row of an operation's column
/// shows what the operation draws there.
pub proof fn lemma_op_column_rows(op: OpV, n: nat, r: usize)
    requires
        op_in_range(op, n),
        r < n,
    ensures
        op_column(op, n).len() == n,
        op_column(op, n)[r as int] == drawn_op(op, r),
{
    lemma_column_len(op, n);
    let blank = Seq::new(n, |k: int| None::<Tok>);
    match op {
        OpV::Gate(g) => {
            lemma_gate_column_rows(g, n, r);
        },
        OpV::Conditional { ops, .. } => {
            let rows = ops.map_values(|g: GateOpV| primary(g));
            assert forall|i: int| 0 <= i < rows.len() implies #[trigger] rows[i] < blank.len() by {
                assert(gate_in_range(ops[i], n));
            }
            lemma_mark_all_at(blank, rows, Tok::Query, r);
            assert(rows.contains(r) == exists|i: int| 0 <= i < ops.len() && #[trigger] primary(ops[i]) == r) by {
                if rows.contains(r) {
                    let k = choose|k: int| 0 <= k < rows.len() && rows[k] == r;
                    assert(primary(ops[k]) == r);
                }
                if exists|i: int| 0 <= i < ops.len() && #[trigger] primary(ops[i]) == r {
                    let k = choose|k: int| 0 <= k < ops.len() && #[trigger] primary(ops[k]) == r;
                    assert(rows[k] == r);
                }
            }
        },
        _ => {},
    }
}

} // verus!
