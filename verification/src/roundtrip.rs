//! What the exporter writes, the importer reads back: the text of an
//! exported program, and the proof that a circuit whose statements name no
//! angle is rebuilt exactly by importing its own export.
use vstd::prelude::*;
use crate::circuit::{any_conditional, any_measure, sp_measure_into, sp_reset_each, with_op, CircuitV, GateOpV, GateV, Label, OpV};
use crate::export::{
    gate_op_plan, gate_params, guarded_lines, header, op_plan, ops_plan, plain, qasm_plan_spec, single_name, text,
    QasmLine, QasmLineV, QasmStmt, QasmStmtV,
};
use crate::qasm::{
    two_to, angle_list_spec, cregs_from, defs_from, gate_spec, head_end, keyword_end, keyword_of, lookup_def, lookup_reg,
    measure_spec, not_a_gate, operands_from, operands_spec, parse_head_spec, qasm_spec, qregs_from, qubit_ref_spec,
    reg_decl_spec, reset_spec, resolve_spec, run_from, scan_statements, skipped, split_head_spec, statements_of,
    strip_from, trim_nonempty, GateDefV, Reg, MAX_EXPANDED_OPS, MAX_QUBITS,
};
use crate::qelib::{builtin_of, builtin_spec, effect, shape, Builtin};
use crate::text::{
    all_digits, chars_of, decimal, digit_char, digits_value, first_index, first_pair, is_digit, is_ws,
    lemma_lead_ws_is, lemma_trail_ws_is, pair_at, parse_nat, parse_usize_spec, push_all, push_decimal, split_on,
    split_once_pair, string_of, strip_prefix, trim, trim_end, trim_start,
};

verus! {

// ---------------------------------------------------------------------------
// Facts about the text helpers.
// ---------------------------------------------------------------------------

/// The first `c` in `s` is at `k` when `s[k]` is `c` and nothing before is.
pub proof fn lemma_first_index_is(s: Seq<char>, c: char, k: int)
    requires
        0 <= k < s.len(),
        s[k] == c,
        forall|m: int| 0 <= m < k ==> s[m] != c,
    ensures
        first_index(s, c) == Some(k),
{
    assert(exists|j: int| 0 <= j < s.len() && s[j] == c);
    let j = choose|j: int| 0 <= j < s.len() && s[j] == c && forall|m: int| 0 <= m < j ==> s[m] != c;
    assert(0 <= k < s.len() && s[k] == c && forall|m: int| 0 <= m < k ==> s[m] != c);
    if j < k {
        assert(s[j] != c);
    } else if j > k {
        assert(s[k] != c);
    }
}

/// There is no `c` in `s`.
pub proof fn lemma_first_index_none(s: Seq<char>, c: char)
    requires
        forall|m: int| 0 <= m < s.len() ==> s[m] != c,
    ensures
        first_index(s, c) is None,
{
}

/// A nonempty text with no whitespace at either end is its own trim.
pub proof fn lemma_trim_plain(s: Seq<char>)
    requires
        s.len() > 0,
        !is_ws(s[0]),
        !is_ws(s.last()),
    ensures
        trim(s) == s,
{
    lemma_lead_ws_is(s, 0);
    assert(trim_start(s) =~= s);
    lemma_trail_ws_is(s, s.len() as int);
    assert(trim_end(s) =~= s);
}

/// Whitespace before and after a trimmed text trims away.
pub proof fn lemma_trim_padded(a: Seq<char>, s: Seq<char>, b: Seq<char>)
    requires
        s.len() > 0,
        !is_ws(s[0]),
        !is_ws(s.last()),
        forall|i: int| 0 <= i < a.len() ==> is_ws(#[trigger] a[i]),
        forall|i: int| 0 <= i < b.len() ==> is_ws(#[trigger] b[i]),
    ensures
        trim(a + s + b) == s,
{
    let t = a + s + b;
    assert forall|k: int| 0 <= k < a.len() implies is_ws(#[trigger] t[k]) by {
        assert(t[k] == a[k]);
    }
    assert(t[a.len() as int] == s[0]);
    lemma_lead_ws_is(t, a.len() as int);
    let u = trim_start(t);
    assert(u =~= s + b);
    assert forall|k: int| s.len() <= k < u.len() implies is_ws(#[trigger] u[k]) by {
        assert(u[k] == b[k - s.len()]);
    }
    assert(u[s.len() - 1] == s.last());
    lemma_trail_ws_is(u, s.len() as int);
    assert(trim_end(u) =~= s);
}

/// The decimal text of a number is one or more digits that read back as it.
pub proof fn lemma_decimal_reads_back(n: nat)
    ensures
        decimal(n).len() > 0,
        all_digits(decimal(n)),
        digits_value(decimal(n)) == n,
        decimal(n)[0] != '+',
    decreases n,
{
    assert(digit_char(n % 10) as nat == n % 10 + 48);
    if n < 10 {
        let d = decimal(n);
        assert(d == seq![digit_char(n % 10)]);
        assert(d.drop_last() =~= Seq::<char>::empty());
        assert(digits_value(d.drop_last()) == 0);
        assert(d.last() == digit_char(n % 10));
        assert(digits_value(d) == digits_value(d.drop_last()) * 10 + ((d.last() as nat) - ('0' as nat)) as nat);
    } else {
        lemma_decimal_reads_back(n / 10);
        let d = decimal(n);
        assert(d == decimal(n / 10).push(digit_char(n % 10)));
        assert(d.drop_last() =~= decimal(n / 10));
        assert forall|k: int| 0 <= k < d.len() implies is_digit(#[trigger] d[k]) by {
            if k < d.len() - 1 {
                assert(d[k] == decimal(n / 10)[k]);
            }
        }
        assert(d[0] == decimal(n / 10)[0]);
        assert(d.last() == digit_char(n % 10));
        assert(digits_value(d) == digits_value(d.drop_last()) * 10 + ((d.last() as nat) - ('0' as nat)) as nat);
        assert(n == (n / 10) * 10 + n % 10);
    }
}

/// Reading a number's decimal text gives the number back.
pub proof fn lemma_parse_decimal(n: nat)
    requires
        n <= usize::MAX,
    ensures
        parse_usize_spec(decimal(n)) == Some(n as usize),
        forall|k: int| 0 <= k < decimal(n).len() ==> is_digit(#[trigger] decimal(n)[k]),
{
    lemma_decimal_reads_back(n);
    assert(parse_nat(decimal(n)) == Some(n));
}

/// Text with no `c` is one piece.
pub proof fn lemma_split_on_none(s: Seq<char>, c: char)
    requires
        forall|m: int| 0 <= m < s.len() ==> s[m] != c,
    ensures
        split_on(s, c) == seq![s],
    decreases s.len(),
{
    if s.len() > 0 {
        lemma_split_on_none(s.drop_last(), c);
        assert(s[s.len() - 1] != c);
        assert(s.last() != c);
        assert(s.drop_last().push(s.last()) =~= s);
        let p = split_on(s.drop_last(), c);
        assert(p.len() == 1 && p.last() == s.drop_last());
        assert(p.update(0, s.drop_last().push(s.last())) =~= seq![s]);
    } else {
        assert(s =~= Seq::<char>::empty());
    }
}

/// Splitting `x`, a `c`, then text with no `c` adds that text as one more
/// piece.
pub proof fn lemma_split_on_then(x: Seq<char>, c: char, b: Seq<char>)
    requires
        forall|m: int| 0 <= m < b.len() ==> b[m] != c,
    ensures
        split_on(x + seq![c] + b, c) == split_on(x, c).push(b),
    decreases b.len(),
{
    let s = x + seq![c] + b;
    if b.len() == 0 {
        assert(s =~= x.push(c));
        assert(s.drop_last() =~= x);
        assert(s.last() == c);
        assert(b =~= Seq::<char>::empty());
    } else {
        lemma_split_on_then(x, c, b.drop_last());
        assert(s.drop_last() =~= x + seq![c] + b.drop_last());
        assert(s.last() == b.last());
        assert(b[b.len() - 1] != c);
        let p = split_on(x, c).push(b.drop_last());
        assert(p.update(p.len() - 1, p.last().push(b.last())) =~= split_on(x, c).push(b)) by {
            assert(b.drop_last().push(b.last()) =~= b);
        }
    }
}

/// `p` then `s` starts with `p`, and the rest is `s`.
pub proof fn lemma_strip_prefix_of(p: Seq<char>, s: Seq<char>)
    ensures
        strip_prefix(p + s, p) == Some(s),
{
    assert((p + s).take(p.len() as int) =~= p);
    assert((p + s).skip(p.len() as int) =~= s);
}

/// Text with no `/` has no comment to strip.
pub proof fn lemma_strip_nothing(s: Seq<char>, i: int)
    requires
        0 <= i <= s.len(),
        forall|m: int| 0 <= m < s.len() ==> s[m] != '/',
    ensures
        strip_from(s, i, false) == s.skip(i),
    decreases s.len() - i,
{
    if i < s.len() {
        lemma_strip_nothing(s, i + 1);
        assert(seq![s[i]] + s.skip(i + 1) =~= s.skip(i));
    } else {
        assert(s.skip(i) =~= Seq::<char>::empty());
    }
}

// ---------------------------------------------------------------------------
// Splitting a program into its statements.
// ---------------------------------------------------------------------------

/// A character that neither ends a statement, opens or closes a block, nor
/// starts a comment.
pub open spec fn plain_char(c: char) -> bool {
    c != ';' && c != '{' && c != '}' && c != '/'
}

/// A statement as the exporter writes it, before its `;`: nonempty, trimmed,
/// and made of plain characters.
pub open spec fn plain_body(b: Seq<char>) -> bool {
    &&& b.len() > 0
    &&& !is_ws(b[0])
    &&& !is_ws(b.last())
    &&& forall|i: int| 0 <= i < b.len() ==> plain_char(#[trigger] b[i])
}

/// The program text of statement bodies, each followed by `;` and a newline.
pub open spec fn bodies_text(bs: Seq<Seq<char>>) -> Seq<char>
    decreases bs.len(),
{
    if bs.len() == 0 {
        Seq::empty()
    } else {
        bodies_text(bs.drop_last()) + bs.last() + seq![';', '\n']
    }
}

/// Where the statement after the bodies `bs` starts: after the last `;`.
pub open spec fn scan_start(bs: Seq<Seq<char>>) -> int {
    if bs.len() == 0 {
        0
    } else {
        bodies_text(bs).len() - 1
    }
}

/// The pieces the statement scan cuts from the text of `bs`: the first
/// body, then each later one after the newline that ended the one before.
pub open spec fn scan_pieces(bs: Seq<Seq<char>>) -> Seq<Seq<char>>
    decreases bs.len(),
{
    if bs.len() == 0 {
        Seq::empty()
    } else if bs.len() == 1 {
        seq![bs[0]]
    } else {
        scan_pieces(bs.drop_last()).push(seq!['\n'] + bs.last())
    }
}

/// Every character of the bodies' text is plain but the `;` and newline
/// after each body.
pub proof fn lemma_bodies_text_len(bs: Seq<Seq<char>>)
    ensures
        bodies_text(bs).len() >= 2 * bs.len(),
        bs.len() > 0 ==> bodies_text(bs)[bodies_text(bs).len() - 1] == '\n',
    decreases bs.len(),
{
    if bs.len() > 0 {
        lemma_bodies_text_len(bs.drop_last());
    }
}

/// The scan runs through a body up to its `;`, then cuts the piece.
proof fn lemma_scan_body(s: Seq<char>, i: int, start: int, acc: Seq<Seq<char>>, j: int)
    requires
        0 <= i <= j < s.len(),
        s[j] == ';',
        forall|m: int| i <= m < j ==> #[trigger] s[m] != ';' && s[m] != '{' && s[m] != '}',
    ensures
        scan_statements(s, i, 0, start, acc) == scan_statements(s, j + 1, 0, j + 1, acc.push(s.subrange(start, j))),
    decreases j - i,
{
    if i < j {
        lemma_scan_body(s, i + 1, start, acc, j);
    }
}

/// The scan of the text of `bs`, followed by anything, reaches the end of
/// the last body's newline with the pieces of `bs` cut.
proof fn lemma_scan_bodies(bs: Seq<Seq<char>>, r: Seq<char>)
    requires
        forall|k: int| 0 <= k < bs.len() ==> plain_body(#[trigger] bs[k]),
    ensures
        scan_statements(bodies_text(bs) + r, 0, 0, 0, Seq::empty()) == scan_statements(
            bodies_text(bs) + r,
            bodies_text(bs).len() as int,
            0,
            scan_start(bs),
            scan_pieces(bs),
        ),
    decreases bs.len(),
{
    if bs.len() > 0 {
        let pre = bs.drop_last();
        let b = bs.last();
        let t0 = bodies_text(pre);
        let s = bodies_text(bs) + r;
        let r2 = b + seq![';', '\n'] + r;
        assert(s =~= t0 + r2);
        assert forall|k: int| 0 <= k < pre.len() implies plain_body(#[trigger] pre[k]) by {
            assert(pre[k] == bs[k]);
        }
        lemma_scan_bodies(pre, r2);
        assert(plain_body(bs[bs.len() - 1]));
        let i = t0.len() as int;
        let j = i + b.len();
        assert forall|m: int| i <= m < j implies #[trigger] s[m] != ';' && s[m] != '{' && s[m] != '}' by {
            assert(s[m] == b[m - i]);
            assert(plain_char(b[m - i]));
        }
        assert(s[j] == ';');
        lemma_scan_body(s, i, scan_start(pre), scan_pieces(pre), j);
        assert(s[j + 1] == '\n');
        assert(bodies_text(bs).len() == j + 2);
        let piece = s.subrange(scan_start(pre), j);
        if pre.len() == 0 {
            assert(t0.len() == 0);
            assert(piece =~= b);
            assert(scan_pieces(pre).push(piece) =~= scan_pieces(bs));
        } else {
            lemma_bodies_text_len(pre);
            assert(s[i - 1] == '\n');
            assert(piece =~= seq!['\n'] + b);
        }
    }
}

/// Trimming the pieces of `bs` gives `bs` back, none of them empty.
proof fn lemma_trim_pieces(bs: Seq<Seq<char>>)
    requires
        forall|k: int| 0 <= k < bs.len() ==> plain_body(#[trigger] bs[k]),
    ensures
        trim_nonempty(scan_pieces(bs)) == bs,
    decreases bs.len(),
{
    reveal_with_fuel(Seq::filter, 2);
    let f = |p: Seq<char>| trim(p);
    let keep = |p: Seq<char>| p.len() > 0;
    if bs.len() == 0 {
        assert(scan_pieces(bs).map_values(f) =~= Seq::<Seq<char>>::empty());
        assert(bs =~= Seq::<Seq<char>>::empty());
    } else {
        let pre = bs.drop_last();
        let b = bs.last();
        assert(plain_body(bs[bs.len() - 1]));
        let piece = if bs.len() == 1 { b } else { seq!['\n'] + b };
        if bs.len() == 1 {
            lemma_trim_plain(b);
            assert(scan_pieces(bs) =~= scan_pieces(pre).push(piece));
        } else {
            lemma_trim_padded(seq!['\n'], b, Seq::empty());
            assert(seq!['\n'] + b + Seq::<char>::empty() =~= piece);
        }
        assert forall|k: int| 0 <= k < pre.len() implies plain_body(#[trigger] pre[k]) by {
            assert(pre[k] == bs[k]);
        }
        lemma_trim_pieces(pre);
        let mapped = scan_pieces(bs).map_values(f);
        assert(mapped =~= scan_pieces(pre).map_values(f).push(b));
        assert(mapped.drop_last() =~= scan_pieces(pre).map_values(f));
        assert(keep(mapped.last()));
        assert(bs =~= pre.push(b));
    }
}

/// A piece that trims to nothing is dropped.
proof fn lemma_trim_nonempty_drops(x: Seq<Seq<char>>, e: Seq<char>)
    requires
        trim(e).len() == 0,
    ensures
        trim_nonempty(x.push(e)) == trim_nonempty(x),
{
    reveal_with_fuel(Seq::filter, 2);
    let f = |p: Seq<char>| trim(p);
    let mapped = x.push(e).map_values(f);
    assert(mapped =~= x.map_values(f).push(trim(e)));
    assert(mapped.drop_last() =~= x.map_values(f));
}

/// The statements of the bodies' text are the bodies.
pub proof fn lemma_statements_of_bodies(bs: Seq<Seq<char>>)
    requires
        forall|k: int| 0 <= k < bs.len() ==> plain_body(#[trigger] bs[k]),
    ensures
        statements_of(bodies_text(bs)) == Ok::<Seq<Seq<char>>, Seq<char>>(bs),
{
    let s = bodies_text(bs);
    assert(s + Seq::<char>::empty() =~= s);
    lemma_scan_bodies(bs, Seq::empty());
    lemma_trim_pieces(bs);
    let n = s.len() as int;
    let tail = s.subrange(scan_start(bs), n);
    assert(scan_statements(s, n, 0, scan_start(bs), scan_pieces(bs)) == Ok::<Seq<Seq<char>>, Seq<char>>(
        scan_pieces(bs).push(tail),
    ));
    if bs.len() == 0 {
        assert(tail =~= Seq::<char>::empty());
        lemma_lead_ws_is(tail, 0);
        lemma_trim_nonempty_drops(scan_pieces(bs), tail);
        reveal_with_fuel(Seq::filter, 2);
        assert(trim_nonempty(scan_pieces(bs)) =~= bs);
    } else {
        lemma_bodies_text_len(bs);
        assert(tail =~= seq!['\n']);
        lemma_lead_ws_is(tail, 1);
        assert(trim(tail).len() == 0);
        lemma_trim_nonempty_drops(scan_pieces(bs), tail);
    }
}

/// The bodies' text has no comment to strip when the bodies are plain.
pub proof fn lemma_bodies_no_slash(bs: Seq<Seq<char>>)
    requires
        forall|k: int| 0 <= k < bs.len() ==> plain_body(#[trigger] bs[k]),
    ensures
        forall|m: int| 0 <= m < bodies_text(bs).len() ==> bodies_text(bs)[m] != '/',
    decreases bs.len(),
{
    if bs.len() > 0 {
        let pre = bs.drop_last();
        assert forall|k: int| 0 <= k < pre.len() implies plain_body(#[trigger] pre[k]) by {
            assert(pre[k] == bs[k]);
        }
        lemma_bodies_no_slash(pre);
        let b = bs.last();
        assert(plain_body(bs[bs.len() - 1]));
        let t = bodies_text(bs);
        let t0 = bodies_text(pre);
        assert forall|m: int| 0 <= m < t.len() implies t[m] != '/' by {
            if m < t0.len() {
                assert(t[m] == t0[m]);
            } else if m < t0.len() + b.len() {
                assert(t[m] == b[m - t0.len()]);
                assert(plain_char(b[m - t0.len()]));
            }
        }
    }
}

// ---------------------------------------------------------------------------
// The text of an exported program.
// ---------------------------------------------------------------------------

/// `r[k]`: a reference to bit or qubit `k` of the register named `r`.
#[verifier::opaque]
pub open spec fn qref(r: char, k: nat) -> Seq<char> {
    seq![r, '['] + decimal(k) + seq![']']
}

/// `q[a],q[b],...`
pub open spec fn qubit_list(qs: Seq<usize>) -> Seq<char>
    decreases qs.len(),
{
    if qs.len() == 0 {
        Seq::empty()
    } else if qs.len() == 1 {
        qref('q', qs[0] as nat)
    } else {
        qubit_list(qs.drop_last()) + seq![','] + qref('q', qs.last() as nat)
    }
}

/// Whether a statement is written without printing a number: one written
/// out in full, or a gate with no angles.
pub open spec fn needs_no_number(l: QasmLineV) -> bool {
    ||| l is Text
    ||| (l matches QasmLineV::Gate { params, .. } && params.len() == 0)
}

/// The text of a statement that needs no number printed.
pub open spec fn line_text(l: QasmLineV) -> Seq<char> {
    match l {
        QasmLineV::Text(t) => t,
        QasmLineV::Gate { name, qubits, .. } => name + seq![' '] + qubit_list(qubits) + seq![';'],
        _ => Seq::empty(),
    }
}

/// A statement's text, after its guard if it has one.
pub open spec fn stmt_text(s: QasmStmtV) -> Seq<char> {
    match s.guard {
        Some(v) => "if(c=="@ + decimal(v as nat) + ") "@ + line_text(s.line),
        None => line_text(s.line),
    }
}

/// The text of an exported program: each statement on a line of its own.
pub open spec fn program_text(p: Seq<QasmStmtV>) -> Seq<char>
    decreases p.len(),
{
    if p.len() == 0 {
        Seq::empty()
    } else {
        program_text(p.drop_last()) + stmt_text(p.last()) + seq!['\n']
    }
}

/// A program whose statements each read as a body and its `;` reads as
/// those bodies.
pub proof fn lemma_program_text(p: Seq<QasmStmtV>, bs: Seq<Seq<char>>)
    requires
        p.len() == bs.len(),
        forall|k: int| 0 <= k < p.len() ==> stmt_text(#[trigger] p[k]) == bs[k] + seq![';'],
    ensures
        program_text(p) == bodies_text(bs),
    decreases p.len(),
{
    if p.len() > 0 {
        assert forall|k: int| 0 <= k < p.len() - 1 implies stmt_text(#[trigger] p.drop_last()[k]) == bs.drop_last()[k]
            + seq![';'] by {
            assert(p.drop_last()[k] == p[k]);
        }
        lemma_program_text(p.drop_last(), bs.drop_last());
        assert(stmt_text(p[p.len() - 1]) == bs[bs.len() - 1] + seq![';']);
        assert(bs.last() + seq![';', '\n'] =~= bs.last() + seq![';'] + seq!['\n']);
    }
}

// ---------------------------------------------------------------------------
// Circuits that export without a number.
// ---------------------------------------------------------------------------

/// A single-qubit gate with no angle, under the label it is built with.
pub open spec fn plain_single(g: GateV, l: Label) -> bool {
    ||| g == GateV::I && l == Label::I
    ||| g == GateV::H && l == Label::H
    ||| g == GateV::X && l == Label::X
    ||| g == GateV::Y && l == Label::Y
    ||| g == GateV::Z && l == Label::Z
    ||| g == GateV::S && l == Label::S
    ||| g == GateV::T && l == Label::T
    ||| g == GateV::Sdg && l == Label::SDG
    ||| g == GateV::Tdg && l == Label::TDG
    ||| g == GateV::SX && l == Label::SX
    ||| g == GateV::SXdg && l == Label::SXDG
}

/// A controlled gate with an OpenQASM name and no angle.
pub open spec fn plain_controlled(g: GateV, l: Label) -> bool {
    ||| g == GateV::X && l == Label::X
    ||| g == GateV::Y && l == Label::Y
    ||| g == GateV::Z && l == Label::Z
    ||| g == GateV::H && l == Label::H
}

/// A gate on a register of `n` qubits that exports as one statement with no
/// number in it: a single-qubit or controlled gate with no angle, a swap or
/// a Toffoli, on distinct qubits of the register.
pub open spec fn plain_gate(g: GateOpV, n: nat) -> bool {
    match g {
        GateOpV::Single { gate, target, label } => plain_single(gate, label) && target < n,
        GateOpV::Controlled { gate, control, target, label } => plain_controlled(gate, label) && control < n
            && target < n && control != target,
        GateOpV::Swap { a, b } => a < n && b < n && a != b,
        GateOpV::MultiControlled { gate, controls, target, label } => gate == GateV::X && label == Label::X
            && controls.len() == 2 && controls[0] < n && controls[1] < n && target < n && controls[0] != controls[1]
            && controls[0] != target && controls[1] != target,
        GateOpV::Kraus { .. } => false,
    }
}

/// An operation on a register of `n` qubits that exports as one statement
/// with no number printed: such a gate, one guarded by a value the
/// classical register can hold, a measurement or a reset.
pub open spec fn plain_op(o: OpV, n: nat) -> bool {
    match o {
        OpV::Gate(g) => plain_gate(g, n),
        OpV::Measure { qubit, clbit } => qubit < n && clbit < n,
        OpV::Reset { qubit } => qubit < n,
        OpV::Conditional { value, ops } => ops.len() == 1 && plain_gate(ops[0], n) && value < two_to(n),
    }
}

/// The name a controlled gate with no angle exports under.
pub open spec fn controlled_name(l: Label) -> Seq<char> {
    match l {
        Label::X => "cx"@,
        Label::Y => "cy"@,
        Label::Z => "cz"@,
        _ => "ch"@,
    }
}

/// The statement a gate that needs no number exports as.
pub open spec fn gate_line(g: GateOpV) -> QasmLineV {
    match g {
        GateOpV::Single { target, label, .. } => QasmLineV::Gate {
            name: single_name(label)->0,
            params: Seq::empty(),
            qubits: seq![target],
        },
        GateOpV::Controlled { control, target, label, .. } => plain(controlled_name(label), seq![control, target]),
        GateOpV::Swap { a, b } => plain("swap"@, seq![a, b]),
        GateOpV::MultiControlled { controls, target, .. } => plain("ccx"@, seq![controls[0], controls[1], target]),
        GateOpV::Kraus { .. } => QasmLineV::Text(Seq::empty()),
    }
}

/// The statement an operation exports as, for one that needs no number.
pub open spec fn op_stmt(o: OpV) -> QasmStmtV {
    match o {
        OpV::Gate(g) => QasmStmtV { guard: None, line: gate_line(g) },
        OpV::Measure { qubit, clbit } => text(
            "measure q["@ + decimal(qubit as nat) + "] -> c["@ + decimal(clbit as nat) + "];"@,
        ),
        OpV::Reset { qubit } => text("reset q["@ + decimal(qubit as nat) + "];"@),
        OpV::Conditional { value, ops } => QasmStmtV { guard: Some(value), line: gate_line(ops[0]) },
    }
}

/// The statement of a gate, before its `;`.
pub open spec fn gate_body(g: GateOpV) -> Seq<char> {
    match g {
        GateOpV::Single { target, label, .. } => single_name(label)->0 + seq![' '] + qref('q', target as nat),
        GateOpV::Controlled { control, target, label, .. } => controlled_name(label) + seq![' '] + qref(
            'q',
            control as nat,
        ) + seq![','] + qref('q', target as nat),
        GateOpV::Swap { a, b } => "swap"@ + seq![' '] + qref('q', a as nat) + seq![','] + qref('q', b as nat),
        GateOpV::MultiControlled { controls, target, .. } => "ccx"@ + seq![' '] + qref('q', controls[0] as nat)
            + seq![','] + qref('q', controls[1] as nat) + seq![','] + qref('q', target as nat),
        GateOpV::Kraus { .. } => Seq::empty(),
    }
}

/// The guard that opens a conditional statement.
pub open spec fn guard_text(value: u64) -> Seq<char> {
    "if(c=="@ + decimal(value as nat) + ") "@
}

/// The statement of an operation, before its `;`.
pub open spec fn op_body(o: OpV) -> Seq<char> {
    match o {
        OpV::Gate(g) => gate_body(g),
        OpV::Measure { qubit, clbit } => "measure"@ + seq![' '] + qref('q', qubit as nat) + seq![' ', '-', '>', ' ']
            + qref('c', clbit as nat),
        OpV::Reset { qubit } => "reset"@ + seq![' '] + qref('q', qubit as nat),
        OpV::Conditional { value, ops } => guard_text(value) + gate_body(ops[0]),
    }
}

/// A gate that needs no number exports as its one statement.
proof fn lemma_gate_plan_plain(n: nat, g: GateOpV)
    requires
        plain_gate(g, n),
    ensures
        gate_op_plan(n, g) == Ok::<Seq<QasmLineV>, crate::export::ExportErrorV>(seq![gate_line(g)]),
        line_text(gate_line(g)) == gate_body(g) + seq![';'],
        needs_no_number(gate_line(g)),
{
    match g {
        GateOpV::Single { gate, target, label } => {
            assert(gate_params(gate) =~= Seq::<crate::expr::AngleV>::empty());
            assert(qubit_list(seq![target]) == qref('q', target as nat));
        },
        GateOpV::Controlled { gate, control, target, label } => {
            let qs = seq![control, target];
            assert(qs.drop_last() =~= seq![control]);
            assert(qubit_list(qs) == qubit_list(seq![control]) + seq![','] + qref('q', target as nat));
        },
        GateOpV::Swap { a, b } => {
            let qs = seq![a, b];
            assert(qs.drop_last() =~= seq![a]);
            assert(qubit_list(qs) == qubit_list(seq![a]) + seq![','] + qref('q', b as nat));
        },
        GateOpV::MultiControlled { gate, controls, target, label } => {
            assert(controls =~= seq![controls[0], controls[1]]);
            let qs = seq![controls[0], controls[1], target];
            assert(qs.drop_last() =~= seq![controls[0], controls[1]]);
            assert(seq![controls[0], controls[1]].drop_last() =~= seq![controls[0]]);
            assert(qubit_list(seq![controls[0], controls[1]]) == qubit_list(seq![controls[0]]) + seq![',']
                + qref('q', controls[1] as nat));
            assert(qubit_list(qs) == qubit_list(seq![controls[0], controls[1]]) + seq![','] + qref(
                'q',
                target as nat,
            ));
        },
        _ => {},
    }
    assert(line_text(gate_line(g)) =~= gate_body(g) + seq![';']);
}

/// An operation that needs no number exports as its one statement.
pub proof fn lemma_op_plan_plain(n: nat, o: OpV)
    requires
        plain_op(o, n),
    ensures
        op_plan(n, o) == Ok::<Seq<QasmStmtV>, crate::export::ExportErrorV>(seq![op_stmt(o)]),
        stmt_text(op_stmt(o)) == op_body(o) + seq![';'],
        needs_no_number(op_stmt(o).line),
{
    match o {
        OpV::Gate(g) => {
            lemma_gate_plan_plain(n, g);
            assert(guarded_lines(seq![gate_line(g)], None) =~= seq![op_stmt(o)]);
        },
        OpV::Measure { qubit, clbit } => {
            reveal(qref);
            reveal_strlit("measure q[");
            reveal_strlit("] -> c[");
            reveal_strlit("];");
            reveal_strlit("measure");
            assert(stmt_text(op_stmt(o)) =~= op_body(o) + seq![';']);
        },
        OpV::Reset { qubit } => {
            reveal(qref);
            reveal_strlit("reset q[");
            reveal_strlit("];");
            reveal_strlit("reset");
            assert(stmt_text(op_stmt(o)) =~= op_body(o) + seq![';']);
        },
        OpV::Conditional { value, ops } => {
            let g = ops[0];
            lemma_gate_plan_plain(n, g);
            assert(ops.drop_last() =~= Seq::<GateOpV>::empty());
            assert(ops.last() == g);
            assert(crate::export::block_plan(n, Seq::<GateOpV>::empty(), value) == Ok::<
                Seq<QasmStmtV>,
                crate::export::ExportErrorV,
            >(Seq::empty()));
            assert(Seq::<QasmStmtV>::empty() + guarded_lines(seq![gate_line(g)], Some(value)) =~= seq![op_stmt(o)]);
            assert(stmt_text(op_stmt(o)) =~= op_body(o) + seq![';']);
        },
    }
}

/// Operations that need no number export as their statements, in order.
pub proof fn lemma_ops_plan_plain(n: nat, ops: Seq<OpV>)
    requires
        forall|i: int| 0 <= i < ops.len() ==> plain_op(#[trigger] ops[i], n),
    ensures
        ops_plan(n, ops) == Ok::<Seq<QasmStmtV>, crate::export::ExportErrorV>(ops.map_values(|o: OpV| op_stmt(o))),
    decreases ops.len(),
{
    if ops.len() > 0 {
        assert forall|i: int| 0 <= i < ops.len() - 1 implies plain_op(#[trigger] ops.drop_last()[i], n) by {
            assert(ops.drop_last()[i] == ops[i]);
        }
        lemma_ops_plan_plain(n, ops.drop_last());
        assert(plain_op(ops[ops.len() - 1], n));
        lemma_op_plan_plain(n, ops.last());
        assert(ops.drop_last().map_values(|o: OpV| op_stmt(o)) + seq![op_stmt(ops.last())] =~= ops.map_values(
            |o: OpV| op_stmt(o),
        ));
    } else {
        assert(ops.map_values(|o: OpV| op_stmt(o)) =~= Seq::<QasmStmtV>::empty());
    }
}

// ---------------------------------------------------------------------------
// The names of gates that need no number.
// ---------------------------------------------------------------------------

/// A nonempty run of ASCII letters.
pub open spec fn word(s: Seq<char>) -> bool {
    s.len() > 0 && forall|i: int| 0 <= i < s.len() ==> crate::text::is_alpha(#[trigger] s[i])
}

/// The name a gate operation that needs no number is written under.
pub open spec fn gate_name(o: OpV) -> Seq<char> {
    match o {
        OpV::Gate(GateOpV::Single { label, .. }) => single_name(label)->0,
        OpV::Gate(GateOpV::Controlled { label, .. }) => controlled_name(label),
        OpV::Gate(GateOpV::MultiControlled { .. }) => "ccx"@,
        _ => "swap"@,
    }
}

/// The built-in gate the importer reads that name as.
pub open spec fn gate_builtin(o: OpV) -> Builtin {
    match o {
        OpV::Gate(GateOpV::Single { label, .. }) => match label {
            Label::I => Builtin::Id,
            Label::H => Builtin::H,
            Label::X => Builtin::X,
            Label::Y => Builtin::Y,
            Label::Z => Builtin::Z,
            Label::S => Builtin::S,
            Label::T => Builtin::T,
            Label::SDG => Builtin::Sdg,
            Label::TDG => Builtin::Tdg,
            Label::SX => Builtin::Sx,
            _ => Builtin::Sxdg,
        },
        OpV::Gate(GateOpV::Controlled { label, .. }) => match label {
            Label::X => Builtin::Cx,
            Label::Y => Builtin::Cy,
            Label::Z => Builtin::Cz,
            _ => Builtin::Ch,
        },
        OpV::Gate(GateOpV::MultiControlled { .. }) => Builtin::Ccx,
        _ => Builtin::Swap,
    }
}

/// The importer reads the name of a gate that needs no number as the
/// built-in gate that gives that operation back.
#[verifier::spinoff_prover]
#[verifier::rlimit(50)]
pub proof fn lemma_gate_name(o: OpV, n: nat)
    requires
        plain_op(o, n),
        o is Gate,
    ensures
        word(gate_name(o)),
        !not_a_gate(gate_name(o)),
        gate_name(o) != "qreg"@,
        gate_name(o) != "creg"@,
        gate_name(o) != "gate"@,
        builtin_of(gate_name(o)) == Some(gate_builtin(o)),
{
    reveal_strlit("id");
    reveal_strlit("x");
    reveal_strlit("y");
    reveal_strlit("z");
    reveal_strlit("h");
    reveal_strlit("s");
    reveal_strlit("t");
    reveal_strlit("sdg");
    reveal_strlit("tdg");
    reveal_strlit("u1");
    reveal_strlit("p");
    reveal_strlit("u2");
    reveal_strlit("u3");
    reveal_strlit("U");
    reveal_strlit("u");
    reveal_strlit("rx");
    reveal_strlit("ry");
    reveal_strlit("rz");
    reveal_strlit("cx");
    reveal_strlit("CX");
    reveal_strlit("cy");
    reveal_strlit("cz");
    reveal_strlit("ch");
    reveal_strlit("crz");
    reveal_strlit("cu1");
    reveal_strlit("cp");
    reveal_strlit("cu3");
    reveal_strlit("swap");
    reveal_strlit("cswap");
    reveal_strlit("ccx");
    reveal_strlit("u0");
    reveal_strlit("sx");
    reveal_strlit("sxdg");
    reveal_strlit("OPENQASM");
    reveal_strlit("include");
    reveal_strlit("qreg");
    reveal_strlit("creg");
    reveal_strlit("barrier");
    reveal_strlit("gate");
    reveal_strlit("measure");
    reveal_strlit("reset");
    reveal_strlit("if");
    reveal_strlit("opaque");
    // The lengths tell most names apart; the first differing character
    // tells apart those of equal length.
    assert("id"@.len() == 2);
    assert("x"@.len() == 1);
    assert("y"@.len() == 1);
    assert("z"@.len() == 1);
    assert("h"@.len() == 1);
    assert("s"@.len() == 1);
    assert("t"@.len() == 1);
    assert("sdg"@.len() == 3);
    assert("tdg"@.len() == 3);
    assert("u1"@.len() == 2);
    assert("p"@.len() == 1);
    assert("u2"@.len() == 2);
    assert("u3"@.len() == 2);
    assert("U"@.len() == 1);
    assert("u"@.len() == 1);
    assert("rx"@.len() == 2);
    assert("ry"@.len() == 2);
    assert("rz"@.len() == 2);
    assert("cx"@.len() == 2);
    assert("CX"@.len() == 2);
    assert("cy"@.len() == 2);
    assert("cz"@.len() == 2);
    assert("ch"@.len() == 2);
    assert("crz"@.len() == 3);
    assert("cu1"@.len() == 3);
    assert("cp"@.len() == 2);
    assert("cu3"@.len() == 3);
    assert("swap"@.len() == 4);
    assert("cswap"@.len() == 5);
    assert("ccx"@.len() == 3);
    assert("u0"@.len() == 2);
    assert("sx"@.len() == 2);
    assert("sxdg"@.len() == 4);
    assert("OPENQASM"@.len() == 8);
    assert("include"@.len() == 7);
    assert("qreg"@.len() == 4);
    assert("creg"@.len() == 4);
    assert("barrier"@.len() == 7);
    assert("gate"@.len() == 4);
    assert("measure"@.len() == 7);
    assert("reset"@.len() == 5);
    assert("if"@.len() == 2);
    assert("opaque"@.len() == 6);
    let nm = gate_name(o);
    match o {
        OpV::Gate(GateOpV::Single { label, .. }) => match label {
            Label::I => {
                assert(nm =~= seq!['i', 'd']);
                assert("if"@[1] == 'f');
                assert(nm =~= "id"@);
            },
            Label::H => {
                assert(nm =~= seq!['h']);
                assert("x"@[0] == 'x');
                assert("y"@[0] == 'y');
                assert("z"@[0] == 'z');
                assert(nm =~= "h"@);
            },
            Label::X => {
                assert(nm =~= seq!['x']);
                assert(nm =~= "x"@);
            },
            Label::Y => {
                assert(nm =~= seq!['y']);
                assert("x"@[0] == 'x');
                assert(nm =~= "y"@);
            },
            Label::Z => {
                assert(nm =~= seq!['z']);
                assert("x"@[0] == 'x');
                assert("y"@[0] == 'y');
                assert(nm =~= "z"@);
            },
            Label::S => {
                assert(nm =~= seq!['s']);
                assert("x"@[0] == 'x');
                assert("y"@[0] == 'y');
                assert("z"@[0] == 'z');
                assert("h"@[0] == 'h');
                assert(nm =~= "s"@);
            },
            Label::T => {
                assert(nm =~= seq!['t']);
                assert("x"@[0] == 'x');
                assert("y"@[0] == 'y');
                assert("z"@[0] == 'z');
                assert("h"@[0] == 'h');
                assert("s"@[0] == 's');
                assert(nm =~= "t"@);
            },
            Label::SDG => {
                assert(nm =~= seq!['s', 'd', 'g']);
                assert(nm =~= "sdg"@);
            },
            Label::TDG => {
                assert(nm =~= seq!['t', 'd', 'g']);
                assert("sdg"@[0] == 's');
                assert(nm =~= "tdg"@);
            },
            Label::SX => {
                assert(nm =~= seq!['s', 'x']);
                assert("id"@[0] == 'i');
                assert("u1"@[0] == 'u');
                assert("u2"@[0] == 'u');
                assert("u3"@[0] == 'u');
                assert("rx"@[0] == 'r');
                assert("ry"@[0] == 'r');
                assert("rz"@[0] == 'r');
                assert("cx"@[0] == 'c');
                assert("CX"@[0] == 'C');
                assert("cy"@[0] == 'c');
                assert("cz"@[0] == 'c');
                assert("ch"@[0] == 'c');
                assert("cp"@[0] == 'c');
                assert("u0"@[0] == 'u');
                assert("if"@[0] == 'i');
                assert(nm =~= "sx"@);
            },
            Label::SXDG => {
                assert(nm =~= seq!['s', 'x', 'd', 'g']);
                assert("swap"@[1] == 'w');
                assert("qreg"@[0] == 'q');
                assert("creg"@[0] == 'c');
                assert("gate"@[0] == 'g');
                assert(nm =~= "sxdg"@);
            },
            _ => {},
        },
        OpV::Gate(GateOpV::Controlled { label, .. }) => match label {
            Label::X => {
                assert(nm =~= seq!['c', 'x']);
                assert("id"@[0] == 'i');
                assert("u1"@[0] == 'u');
                assert("u2"@[0] == 'u');
                assert("u3"@[0] == 'u');
                assert("rx"@[0] == 'r');
                assert("ry"@[0] == 'r');
                assert("rz"@[0] == 'r');
                assert("if"@[0] == 'i');
                assert(nm =~= "cx"@);
            },
            Label::Y => {
                assert(nm =~= seq!['c', 'y']);
                assert("id"@[0] == 'i');
                assert("u1"@[0] == 'u');
                assert("u2"@[0] == 'u');
                assert("u3"@[0] == 'u');
                assert("rx"@[0] == 'r');
                assert("ry"@[0] == 'r');
                assert("rz"@[0] == 'r');
                assert("cx"@[1] == 'x');
                assert("CX"@[0] == 'C');
                assert("if"@[0] == 'i');
                assert(nm =~= "cy"@);
            },
            Label::Z => {
                assert(nm =~= seq!['c', 'z']);
                assert("id"@[0] == 'i');
                assert("u1"@[0] == 'u');
                assert("u2"@[0] == 'u');
                assert("u3"@[0] == 'u');
                assert("rx"@[0] == 'r');
                assert("ry"@[0] == 'r');
                assert("rz"@[0] == 'r');
                assert("cx"@[1] == 'x');
                assert("CX"@[0] == 'C');
                assert("cy"@[1] == 'y');
                assert("if"@[0] == 'i');
                assert(nm =~= "cz"@);
            },
            Label::H => {
                assert(nm =~= seq!['c', 'h']);
                assert("id"@[0] == 'i');
                assert("u1"@[0] == 'u');
                assert("u2"@[0] == 'u');
                assert("u3"@[0] == 'u');
                assert("rx"@[0] == 'r');
                assert("ry"@[0] == 'r');
                assert("rz"@[0] == 'r');
                assert("cx"@[1] == 'x');
                assert("CX"@[0] == 'C');
                assert("cy"@[1] == 'y');
                assert("cz"@[1] == 'z');
                assert("if"@[0] == 'i');
                assert(nm =~= "ch"@);
            },
            _ => {},
        },
        OpV::Gate(GateOpV::MultiControlled { .. }) => {
            assert(nm =~= seq!['c', 'c', 'x']);
            assert("sdg"@[0] == 's');
            assert("tdg"@[0] == 't');
            assert("crz"@[1] == 'r');
            assert("cu1"@[1] == 'u');
            assert("cu3"@[1] == 'u');
            assert(nm =~= "ccx"@);
        },
        _ => {
            assert(nm =~= seq!['s', 'w', 'a', 'p']);
            assert("qreg"@[0] == 'q');
            assert("creg"@[0] == 'c');
            assert("gate"@[0] == 'g');
            assert(nm =~= "swap"@);
        },
    }
}

// ---------------------------------------------------------------------------
// Reading qubit references back.
// ---------------------------------------------------------------------------

/// The characters of `r[k]`: the name, `[`, the digits of `k`, `]`.
pub proof fn lemma_qref_chars(r: char, k: nat)
    ensures
        qref(r, k).len() == decimal(k).len() + 3,
        qref(r, k)[0] == r,
        qref(r, k)[1] == '[',
        qref(r, k)[qref(r, k).len() - 1] == ']',
        qref(r, k).subrange(2, qref(r, k).len() - 1) == decimal(k),
        forall|i: int| 2 <= i < qref(r, k).len() - 1 ==> is_digit(#[trigger] qref(r, k)[i]),
{
    reveal(qref);
    lemma_decimal_reads_back(k);
    let q = qref(r, k);
    assert(q.subrange(2, q.len() - 1) =~= decimal(k));
    assert forall|i: int| 2 <= i < q.len() - 1 implies is_digit(#[trigger] q[i]) by {
        assert(q[i] == decimal(k)[i - 2]);
    }
}

/// The register table holding the one register `name`, of `n` bits, first.
pub open spec fn one_reg(name: Seq<char>, n: nat) -> Seq<(Seq<char>, Reg)> {
    seq![(name, Reg { offset: 0, size: n as usize })]
}

/// `r[k]` reads back as `k` in the register table of `r` alone.
pub proof fn lemma_ref_reads_back(r: char, k: nat, n: nat)
    requires
        crate::text::is_alpha(r),
        k < n <= usize::MAX,
    ensures
        qubit_ref_spec(qref(r, k), one_reg(seq![r], n)) == Ok::<usize, Seq<char>>(k as usize),
{
    reveal(qubit_ref_spec);
    let q = qref(r, k);
    lemma_qref_chars(r, k);
    lemma_first_index_is(q, '[', 1);
    assert forall|m: int| 0 <= m < q.len() - 1 implies q[m] != ']' by {
        if m >= 2 {
            assert(is_digit(q[m]));
        }
    }
    lemma_first_index_is(q, ']', q.len() - 1);
    assert(q.take(1) =~= seq![r]);
    lemma_trim_plain(seq![r]);
    lemma_parse_decimal(k);
    let d = decimal(k);
    assert(is_digit(d[0]) && is_digit(d[d.len() - 1]));
    lemma_trim_plain(d);
    assert(lookup_reg(one_reg(seq![r], n), seq![r]) == Some(Reg { offset: 0, size: n as usize }));
}

/// `r[k]` is its own trim.
pub proof fn lemma_qref_trimmed(r: char, k: nat)
    requires
        crate::text::is_alpha(r),
    ensures
        trim(qref(r, k)) == qref(r, k),
{
    lemma_qref_chars(r, k);
    lemma_trim_plain(qref(r, k));
}

/// Every character of `r[k]` is a letter, a digit or a bracket.
pub open spec fn ref_char(c: char) -> bool {
    crate::text::is_alnum(c) || c == '[' || c == ']'
}

/// `r[k]` holds only letters, digits and brackets.
pub proof fn lemma_qref_ref_chars(r: char, k: nat)
    requires
        crate::text::is_alpha(r),
    ensures
        forall|i: int| 0 <= i < qref(r, k).len() ==> ref_char(#[trigger] qref(r, k)[i]),
{
    lemma_qref_chars(r, k);
}

/// `q[a]` alone is the one operand `a`.
pub proof fn lemma_operands_one(a: nat, n: nat)
    requires
        a < n <= usize::MAX,
    ensures
        operands_spec(qref('q', a), one_reg(seq!['q'], n)) == Ok::<Seq<usize>, Seq<char>>(seq![a as usize]),
{
    let q = qref('q', a);
    lemma_qref_ref_chars('q', a);
    lemma_qref_chars('q', a);
    lemma_trim_plain(q);
    lemma_split_on_none(q, ',');
    lemma_ref_reads_back('q', a, n);
    let regs = one_reg(seq!['q'], n);
    assert(operands_from(seq![q], 1, seq![a as usize], regs) == Ok::<Seq<usize>, Seq<char>>(seq![a as usize]));
    assert(seq![a as usize] =~= Seq::<usize>::empty().push(a as usize));
}

/// `q[a],q[b]` splits into the two references.
proof fn lemma_split_two(a: nat, b: nat)
    ensures
        split_on(qref('q', a) + seq![','] + qref('q', b), ',') == seq![qref('q', a), qref('q', b)],
{
    let qa = qref('q', a);
    let qb = qref('q', b);
    lemma_qref_ref_chars('q', a);
    lemma_qref_ref_chars('q', b);
    assert forall|m: int| 0 <= m < qa.len() implies qa[m] != ',' by {
        assert(ref_char(qa[m]));
    }
    assert forall|m: int| 0 <= m < qb.len() implies qb[m] != ',' by {
        assert(ref_char(qb[m]));
    }
    lemma_split_on_none(qa, ',');
    lemma_split_on_then(qa, ',', qb);
    assert(seq![qa].push(qb) =~= seq![qa, qb]);
}

/// The pieces `q[a]`, `q[b]` read as the operands `a`, `b`.
/// One step of reading an operand list.
proof fn lemma_operands_step(
    ps: Seq<Seq<char>>,
    k: int,
    acc: Seq<usize>,
    regs: Seq<(Seq<char>, Reg)>,
    q: usize,
)
    requires
        0 <= k < ps.len(),
        qubit_ref_spec(trim(ps[k]), regs) == Ok::<usize, Seq<char>>(q),
    ensures
        operands_from(ps, k, acc, regs) == operands_from(ps, k + 1, acc.push(q), regs),
{
}

/// The pieces `q[a]`, `q[b]` read as the operands `a`, `b`.
proof fn lemma_operands_from_two(a: nat, b: nat, n: nat)
    requires
        a < n <= usize::MAX,
        b < n,
    ensures
        operands_from(seq![qref('q', a), qref('q', b)], 0, Seq::empty(), one_reg(seq!['q'], n)) == Ok::<
            Seq<usize>,
            Seq<char>,
        >(seq![a as usize, b as usize]),
{
    let qa = qref('q', a);
    let qb = qref('q', b);
    let regs = one_reg(seq!['q'], n);
    let ps = seq![qa, qb];
    let e = Seq::<usize>::empty();
    let acc1 = e.push(a as usize);
    let acc2 = acc1.push(b as usize);
    assert(operands_from(ps, 1, acc1, regs) == operands_from(ps, 2, acc2, regs)) by {
        lemma_qref_trimmed('q', b);
        lemma_ref_reads_back('q', b, n);
        assert(ps[1] == qb);
        lemma_operands_step(ps, 1, acc1, regs, b as usize);
    }
    assert(operands_from(ps, 0, e, regs) == operands_from(ps, 1, acc1, regs)) by {
        lemma_qref_trimmed('q', a);
        lemma_ref_reads_back('q', a, n);
        assert(ps[0] == qa);
        lemma_operands_step(ps, 0, e, regs, a as usize);
    }
    assert(acc2 =~= seq![a as usize, b as usize]);
}

/// `q[a],q[b]` is the operands `a`, `b`.
pub proof fn lemma_operands_two(a: nat, b: nat, n: nat)
    requires
        a < n <= usize::MAX,
        b < n,
    ensures
        operands_spec(qref('q', a) + seq![','] + qref('q', b), one_reg(seq!['q'], n)) == Ok::<Seq<usize>, Seq<char>>(
            seq![a as usize, b as usize],
        ),
{
    let qa = qref('q', a);
    let qb = qref('q', b);
    let s = qa + seq![','] + qb;
    assert(trim(s).len() > 0) by {
        lemma_qref_chars('q', a);
        lemma_qref_chars('q', b);
        assert(s[0] == qa[0]);
        assert(s[s.len() - 1] == qb[qb.len() - 1]);
        lemma_trim_plain(s);
    }
    lemma_split_two(a, b);
    lemma_operands_from_two(a, b, n);
}

/// `q[a],q[b],q[c]` splits into the three references.
proof fn lemma_split_three(a: nat, b: nat, c: nat)
    ensures
        split_on(qref('q', a) + seq![','] + qref('q', b) + seq![','] + qref('q', c), ',') == seq![
            qref('q', a),
            qref('q', b),
            qref('q', c),
        ],
{
    let qc = qref('q', c);
    lemma_qref_ref_chars('q', c);
    assert forall|m: int| 0 <= m < qc.len() implies qc[m] != ',' by {
        assert(ref_char(qc[m]));
    }
    lemma_split_two(a, b);
    lemma_split_on_then(qref('q', a) + seq![','] + qref('q', b), ',', qc);
    assert(seq![qref('q', a), qref('q', b)].push(qc) =~= seq![qref('q', a), qref('q', b), qc]);
}

/// `q[a],q[b],q[c]` is the operands `a`, `b`, `c`.
proof fn lemma_operands_three(a: nat, b: nat, c: nat, n: nat)
    requires
        a < n <= usize::MAX,
        b < n,
        c < n,
    ensures
        operands_spec(
            qref('q', a) + seq![','] + qref('q', b) + seq![','] + qref('q', c),
            one_reg(seq!['q'], n),
        ) == Ok::<Seq<usize>, Seq<char>>(seq![a as usize, b as usize, c as usize]),
{
    let qa = qref('q', a);
    let qb = qref('q', b);
    let qc = qref('q', c);
    let s = qa + seq![','] + qb + seq![','] + qc;
    assert(trim(s).len() > 0) by {
        lemma_qref_chars('q', a);
        lemma_qref_chars('q', c);
        assert(s[0] == qa[0]);
        assert(s[s.len() - 1] == qc[qc.len() - 1]);
        lemma_trim_plain(s);
    }
    lemma_split_three(a, b, c);
    let regs = one_reg(seq!['q'], n);
    let ps = seq![qa, qb, qc];
    let e = Seq::<usize>::empty();
    let acc1 = e.push(a as usize);
    let acc2 = acc1.push(b as usize);
    let acc3 = acc2.push(c as usize);
    assert(operands_from(ps, 2, acc2, regs) == operands_from(ps, 3, acc3, regs)) by {
        lemma_qref_trimmed('q', c);
        lemma_ref_reads_back('q', c, n);
        assert(ps[2] == qc);
        lemma_operands_step(ps, 2, acc2, regs, c as usize);
    }
    assert(operands_from(ps, 1, acc1, regs) == operands_from(ps, 2, acc2, regs)) by {
        lemma_qref_trimmed('q', b);
        lemma_ref_reads_back('q', b, n);
        assert(ps[1] == qb);
        lemma_operands_step(ps, 1, acc1, regs, b as usize);
    }
    assert(operands_from(ps, 0, e, regs) == operands_from(ps, 1, acc1, regs)) by {
        lemma_qref_trimmed('q', a);
        lemma_ref_reads_back('q', a, n);
        assert(ps[0] == qa);
        lemma_operands_step(ps, 0, e, regs, a as usize);
    }
    assert(acc3 =~= seq![a as usize, b as usize, c as usize]);
}

/// `r[k]` resolves to the one bit or qubit `k`.
pub proof fn lemma_resolve_ref(r: char, k: nat, n: nat, stmt: Seq<char>)
    requires
        crate::text::is_alpha(r),
        k < n <= usize::MAX,
    ensures
        resolve_spec(qref(r, k), one_reg(seq![r], n), stmt) == Ok::<Seq<usize>, Seq<char>>(seq![k as usize]),
{
    let q = qref(r, k);
    lemma_qref_ref_chars(r, k);
    lemma_qref_chars(r, k);
    assert(q.contains('['));
    lemma_trim_plain(q);
    lemma_split_on_none(q, ',');
    lemma_ref_reads_back(r, k, n);
    let regs = one_reg(seq![r], n);
    assert(operands_from(seq![q], 1, seq![k as usize], regs) == Ok::<Seq<usize>, Seq<char>>(seq![k as usize]));
    assert(seq![k as usize] =~= Seq::<usize>::empty().push(k as usize));
}

// ---------------------------------------------------------------------------
// Reading one statement back.
// ---------------------------------------------------------------------------

/// The leading keyword of a word followed by whitespace is the word.
pub proof fn lemma_keyword_of_word(w: Seq<char>, rest: Seq<char>)
    requires
        word(w),
        rest.len() > 0,
        crate::qasm::ends_keyword(rest[0]),
    ensures
        keyword_of(w + rest) == w,
{
    let s = w + rest;
    assert forall|k: int| 0 <= k <= w.len() implies keyword_end(s, k) == w.len() by {
        lemma_keyword_end_from(s, k, w.len() as int);
    }
    assert(s.take(w.len() as int) =~= w);
}

/// A keyword scan through letters stops at the first character that ends
/// a keyword.
proof fn lemma_keyword_end_from(s: Seq<char>, k: int, j: int)
    requires
        0 <= k <= j < s.len(),
        forall|m: int| k <= m < j ==> crate::text::is_alpha(#[trigger] s[m]),
        crate::qasm::ends_keyword(s[j]),
    ensures
        keyword_end(s, k) == j,
    decreases j - k,
{
    if k < j {
        assert(crate::text::is_alpha(s[k]));
        lemma_keyword_end_from(s, k + 1, j);
    }
}

/// A head scan through letters stops at the first whitespace.
proof fn lemma_head_end_from(s: Seq<char>, k: int, j: int)
    requires
        0 <= k <= j < s.len(),
        forall|m: int| k <= m < j ==> crate::text::is_alpha(#[trigger] s[m]),
        is_ws(s[j]),
    ensures
        head_end(s, k, 0) == j,
    decreases j - k,
{
    if k < j {
        assert(crate::text::is_alpha(s[k]));
        lemma_head_end_from(s, k + 1, j);
    }
}

/// The first `a b` in `s` is at `k` when it occurs there and no `a` comes
/// before.
pub proof fn lemma_first_pair_is(s: Seq<char>, a: char, b: char, k: int)
    requires
        pair_at(s, k, a, b),
        forall|m: int| 0 <= m < k ==> s[m] != a,
    ensures
        first_pair(s, a, b) == Some(k),
{
    assert(exists|j: int| pair_at(s, j, a, b));
    let j = choose|j: int| pair_at(s, j, a, b) && forall|m: int| 0 <= m < j ==> !pair_at(s, m, a, b);
    assert(pair_at(s, k, a, b) && forall|m: int| 0 <= m < k ==> !pair_at(s, m, a, b));
    if j < k {
        assert(s[j] != a);
    } else if j > k {
        assert(!pair_at(s, k, a, b));
    }
}

/// The qubits a gate operation that needs no number is written on.
pub open spec fn gate_qubits(o: OpV) -> Seq<usize> {
    match o {
        OpV::Gate(GateOpV::Single { target, .. }) => seq![target],
        OpV::Gate(GateOpV::Controlled { control, target, .. }) => seq![control, target],
        OpV::Gate(GateOpV::Swap { a, b }) => seq![a, b],
        OpV::Gate(GateOpV::MultiControlled { controls, target, .. }) => seq![controls[0], controls[1], target],
        _ => Seq::empty(),
    }
}

/// A gate statement that needs no number is its name, a space, and its
/// qubits.
proof fn lemma_gate_operands_text(o: OpV)
    requires
        o is Gate,
        !(o matches OpV::Gate(GateOpV::Kraus { .. })),
        o matches OpV::Gate(GateOpV::MultiControlled { controls, .. }) ==> controls.len() == 2,
    ensures
        gate_qubits(o).len() > 0,
        op_body(o) == gate_name(o) + seq![' '] + qubit_list(gate_qubits(o)),
        qubit_list(gate_qubits(o)).len() > 0,
        qubit_list(gate_qubits(o))[0] == 'q',
        qubit_list(gate_qubits(o))[qubit_list(gate_qubits(o)).len() - 1] == ']',
        gate_qubits(o).len() == 3 ==> qubit_list(gate_qubits(o)) == qref('q', gate_qubits(o)[0] as nat) + seq![',']
            + qref('q', gate_qubits(o)[1] as nat) + seq![','] + qref('q', gate_qubits(o)[2] as nat),
        gate_qubits(o).len() == 2 ==> qubit_list(gate_qubits(o)) == qref('q', gate_qubits(o)[0] as nat) + seq![',']
            + qref('q', gate_qubits(o)[1] as nat),
        gate_qubits(o).len() == 1 ==> qubit_list(gate_qubits(o)) == qref('q', gate_qubits(o)[0] as nat),
        1 <= gate_qubits(o).len() <= 3,
{
    let qs = gate_qubits(o);
    match o {
        OpV::Gate(GateOpV::Single { target, .. }) => {
            assert(qubit_list(qs) == qref('q', target as nat));
            lemma_qref_chars('q', target as nat);
        },
        _ => {
            let a = qs[0];
            let b = qs[1];
            let two = seq![a, b];
            assert(two.drop_last() =~= seq![a]);
            assert(qubit_list(seq![a]) == qref('q', a as nat));
            assert(qubit_list(two) == qref('q', a as nat) + seq![','] + qref('q', b as nat));
            lemma_qref_chars('q', a as nat);
            lemma_qref_chars('q', b as nat);
            if qs.len() == 2 {
                assert(qs =~= two);
                let l = qubit_list(qs);
                assert(l[0] == qref('q', a as nat)[0]);
                assert(l[l.len() - 1] == qref('q', b as nat)[qref('q', b as nat).len() - 1]);
            } else {
                let t = qs[2];
                assert(qs.drop_last() =~= two);
                assert(qs.last() == t);
                assert(qubit_list(qs) == qubit_list(two) + seq![','] + qref('q', t as nat));
                lemma_qref_chars('q', t as nat);
                let l = qubit_list(qs);
                assert(l[0] == qref('q', a as nat)[0]);
                assert(l[l.len() - 1] == qref('q', t as nat)[qref('q', t as nat).len() - 1]);
            }
        },
    }
    assert(op_body(o) =~= gate_name(o) + seq![' '] + qubit_list(qs));
}

/// The operand list of a gate that needs no number reads back as its qubits.
proof fn lemma_gate_operands(o: OpV, n: nat)
    requires
        plain_op(o, n),
        o is Gate,
        n <= usize::MAX,
    ensures
        operands_spec(qubit_list(gate_qubits(o)), one_reg(seq!['q'], n)) == Ok::<Seq<usize>, Seq<char>>(gate_qubits(o)),
        trim(qubit_list(gate_qubits(o))) == qubit_list(gate_qubits(o)),
{
    let qs = gate_qubits(o);
    lemma_gate_operands_text(o);
    let l = qubit_list(qs);
    lemma_trim_plain(l);
    if qs.len() == 1 {
        lemma_operands_one(qs[0] as nat, n);
    } else if qs.len() == 2 {
        lemma_operands_two(qs[0] as nat, qs[1] as nat, n);
    } else {
        lemma_operands_three(qs[0] as nat, qs[1] as nat, qs[2] as nat, n);
    }
}

/// The built-in gate that gives a gate operation back, applied to its
/// qubits, appends that operation.
proof fn lemma_gate_effect(c: CircuitV, o: OpV, n: nat)
    requires
        plain_op(o, n),
        o is Gate,
    ensures
        shape(gate_builtin(o)) == (gate_qubits(o).len() as usize, 0usize),
        gate_qubits(o).len() > 1 ==> crate::qasm::distinct(gate_qubits(o)),
        effect(c, gate_builtin(o), Seq::empty(), gate_qubits(o)) == with_op(c, o),
{
    if let OpV::Gate(GateOpV::MultiControlled { controls, .. }) = o {
        assert(controls =~= seq![controls[0], controls[1]]);
    }
}

/// A gate statement that needs no number appends its operation and uses
/// one built-in gate of the budget.
#[verifier::spinoff_prover]
pub proof fn lemma_gate_stmt(c: CircuitV, o: OpV, budget: nat)
    requires
        plain_op(o, c.n_qubits as nat),
        o is Gate,
        budget > 0,
    ensures
        gate_spec(c, op_body(o), one_reg(seq!['q'], c.n_qubits as nat), Seq::empty(), budget) == Ok::<
            (CircuitV, nat),
            Seq<char>,
        >((with_op(c, o), (budget - 1) as nat)),
{
    reveal(gate_spec);
    let n = c.n_qubits as nat;
    let regs = one_reg(seq!['q'], n);
    let s = op_body(o);
    let w = gate_name(o);
    let qs = gate_qubits(o);
    let l = qubit_list(qs);
    lemma_gate_name(o, n);
    lemma_gate_operands_text(o);
    lemma_gate_operands(o, n);
    lemma_gate_effect(c, o, n);
    assert(s =~= w + (seq![' '] + l));
    lemma_head_end_from(s, 0, w.len() as int);
    assert(s.take(w.len() as int) =~= w);
    assert(s.skip(w.len() as int) =~= seq![' '] + l);
    lemma_trim_plain(w);
    lemma_trim_padded(seq![' '], l, Seq::empty());
    assert(seq![' '] + l + Seq::<char>::empty() =~= seq![' '] + l);
    assert(split_head_spec(s) == (w, l));
    lemma_first_index_none(w, '(');
    assert(parse_head_spec(w) == (w, Option::<Seq<char>>::None));
    assert(angle_list_spec(None, Seq::empty(), s) == Ok::<Seq<crate::expr::AngleV>, Seq<char>>(Seq::empty()));
    assert(lookup_def(Seq::<(Seq<char>, GateDefV)>::empty(), w) is None);
    assert(builtin_spec(c, w, Seq::empty(), qs, s) == Ok::<CircuitV, Seq<char>>(with_op(c, o)));
}

/// The leading keyword of a statement that needs no number is its name.
proof fn lemma_op_keyword(o: OpV, n: nat)
    requires
        plain_op(o, n),
    ensures
        keyword_of(op_body(o)) == match o {
            OpV::Measure { .. } => "measure"@,
            OpV::Reset { .. } => "reset"@,
            OpV::Conditional { .. } => "if"@,
            _ => gate_name(o),
        },
{
    match o {
        OpV::Conditional { value, ops } => {
            reveal_strlit("if");
            reveal_strlit("if(c==");
            let w = seq!['i', 'f'];
            assert("if"@ =~= w);
            let rest = seq!['(', 'c', '=', '='] + decimal(value as nat) + ") "@ + gate_body(ops[0]);
            assert(op_body(o) =~= w + rest);
            lemma_keyword_of_word(w, rest);
        },
        OpV::Measure { qubit, clbit } => {
            reveal_strlit("measure");
            let w = "measure"@;
            assert(w =~= seq!['m', 'e', 'a', 's', 'u', 'r', 'e']);
            let rest = seq![' '] + qref('q', qubit as nat) + seq![' ', '-', '>', ' '] + qref('c', clbit as nat);
            assert(op_body(o) =~= w + rest);
            lemma_keyword_of_word(w, rest);
        },
        OpV::Reset { qubit } => {
            reveal_strlit("reset");
            let w = "reset"@;
            assert(w =~= seq!['r', 'e', 's', 'e', 't']);
            let rest = seq![' '] + qref('q', qubit as nat);
            assert(op_body(o) =~= w + rest);
            lemma_keyword_of_word(w, rest);
        },
        _ => {
            lemma_gate_name(o, n);
            lemma_gate_operands_text(o);
            let rest = seq![' '] + qubit_list(gate_qubits(o));
            assert(op_body(o) =~= gate_name(o) + rest);
            lemma_keyword_of_word(gate_name(o), rest);
        },
    }
}

/// A measurement statement whose parts read back reads back as that
/// measurement.
proof fn lemma_measure_parts(
    c: CircuitV,
    s: Seq<char>,
    rest: Seq<char>,
    source: Seq<char>,
    dest: Seq<char>,
    regs: Seq<(Seq<char>, Reg)>,
    cregs: Seq<(Seq<char>, Reg)>,
    i: usize,
    j: usize,
)
    requires
        strip_prefix(s, "measure"@) == Some(rest),
        split_once_pair(rest, '-', '>') == Some((source, dest)),
        trim(dest).len() > 0,
        resolve_spec(trim(source), regs, s) == Ok::<Seq<usize>, Seq<char>>(seq![i]),
        resolve_spec(trim(dest), cregs, s) == Ok::<Seq<usize>, Seq<char>>(seq![j]),
    ensures
        measure_spec(c, s, regs, cregs) == Ok::<CircuitV, Seq<char>>(sp_measure_into(c, seq![i], seq![j])),
{
    reveal(measure_spec);
}

/// ` a -> b` splits at its arrow when `a` holds no `-`.
proof fn lemma_arrow_split(a: Seq<char>, b: Seq<char>)
    requires
        forall|m: int| 0 <= m < a.len() ==> a[m] != '-',
    ensures
        ({
            let rest = seq![' '] + a + seq![' ', '-', '>', ' '] + b;
            let k = a.len() as int + 2;
            &&& split_once_pair(rest, '-', '>') == Some((rest.take(k), rest.skip(k + 2)))
            &&& rest.take(k) == seq![' '] + a + seq![' ']
            &&& rest.skip(k + 2) == seq![' '] + b
        }),
{
    let rest = seq![' '] + a + seq![' ', '-', '>', ' '] + b;
    let k = a.len() as int + 2;
    assert(rest[k] == '-' && rest[k + 1] == '>');
    assert(pair_at(rest, k, '-', '>'));
    assert forall|m: int| 0 <= m < k implies rest[m] != '-' by {
        if 1 <= m < 1 + a.len() {
            assert(rest[m] == a[m - 1]);
        }
    }
    lemma_first_pair_is(rest, '-', '>', k);
    assert(rest.take(k) =~= seq![' '] + a + seq![' ']);
    assert(rest.skip(k + 2) =~= seq![' '] + b);
}

/// `q[k]` has no `-`.
proof fn lemma_qref_no_dash(r: char, k: nat)
    requires
        crate::text::is_alpha(r),
    ensures
        forall|m: int| 0 <= m < qref(r, k).len() ==> qref(r, k)[m] != '-',
{
    lemma_qref_ref_chars(r, k);
    assert forall|m: int| 0 <= m < qref(r, k).len() implies qref(r, k)[m] != '-' by {
        assert(ref_char(qref(r, k)[m]));
    }
}

/// The text of a measurement after its keyword.
pub open spec fn measure_rest(i: nat, j: nat) -> Seq<char> {
    seq![' '] + qref('q', i) + seq![' ', '-', '>', ' '] + qref('c', j)
}

/// `measure q[i] -> c[j]` is `measure` and the rest.
proof fn lemma_measure_strip(i: nat, j: nat)
    requires
        i <= usize::MAX,
        j <= usize::MAX,
    ensures
        strip_prefix(op_body(OpV::Measure { qubit: i as usize, clbit: j as usize }), "measure"@) == Some(
            measure_rest(i, j),
        ),
{
    let s = op_body(OpV::Measure { qubit: i as usize, clbit: j as usize });
    let qi = qref('q', i);
    let cj = qref('c', j);
    assert(s == "measure"@ + seq![' '] + qi + seq![' ', '-', '>', ' '] + cj);
    assert(s =~= "measure"@ + measure_rest(i, j));
    lemma_strip_prefix_of("measure"@, measure_rest(i, j));
}

/// The rest of a measurement splits at its arrow, into `q[i]` and `c[j]`
/// with spaces around them.
proof fn lemma_measure_split(i: nat, j: nat)
    ensures
        ({
            let rest = measure_rest(i, j);
            let k = qref('q', i).len() as int + 2;
            &&& split_once_pair(rest, '-', '>') == Some((rest.take(k), rest.skip(k + 2)))
            &&& rest.take(k) == seq![' '] + qref('q', i) + seq![' ']
            &&& rest.skip(k + 2) == seq![' '] + qref('c', j)
        }),
{
    let qi = qref('q', i);
    let cj = qref('c', j);
    let rest = measure_rest(i, j);
    let k = qi.len() as int + 2;
    lemma_qref_no_dash('q', i);
    lemma_arrow_split(qi, cj);
}

/// `r[k]` with spaces around it trims to `r[k]`.
proof fn lemma_qref_padded(r: char, k: nat, before: Seq<char>, after: Seq<char>)
    requires
        crate::text::is_alpha(r),
        forall|m: int| 0 <= m < before.len() ==> is_ws(#[trigger] before[m]),
        forall|m: int| 0 <= m < after.len() ==> is_ws(#[trigger] after[m]),
    ensures
        trim(before + qref(r, k) + after) == qref(r, k),
        qref(r, k).len() > 0,
{
    lemma_qref_chars(r, k);
    lemma_trim_padded(before, qref(r, k), after);
}

/// `measure q[i] -> c[j]` appends that measurement.
pub proof fn lemma_measure_stmt(c: CircuitV, i: nat, j: nat)
    requires
        i < c.n_qubits,
        j < c.n_qubits,
    ensures
        measure_spec(
            c,
            op_body(OpV::Measure { qubit: i as usize, clbit: j as usize }),
            one_reg(seq!['q'], c.n_qubits as nat),
            one_reg(seq!['c'], c.n_qubits as nat),
        ) == Ok::<CircuitV, Seq<char>>(with_op(c, OpV::Measure { qubit: i as usize, clbit: j as usize })),
{
    let n = c.n_qubits as nat;
    let o = OpV::Measure { qubit: i as usize, clbit: j as usize };
    let s = op_body(o);
    let qi = qref('q', i);
    let cj = qref('c', j);
    let rest = measure_rest(i, j);
    let k = qi.len() as int + 2;
    let source = rest.take(k);
    let dest = rest.skip(k + 2);
    let regs = one_reg(seq!['q'], n);
    let cregs = one_reg(seq!['c'], n);
    assert(strip_prefix(s, "measure"@) == Some(rest)) by {
        lemma_measure_strip(i, j);
    }
    assert(split_once_pair(rest, '-', '>') == Some((source, dest))) by {
        lemma_measure_split(i, j);
    }
    assert(trim(source) == qi) by {
        lemma_measure_split(i, j);
        lemma_qref_padded('q', i, seq![' '], seq![' ']);
    }
    assert(trim(dest) == cj && cj.len() > 0) by {
        lemma_measure_split(i, j);
        lemma_qref_padded('c', j, seq![' '], Seq::empty());
        assert(seq![' '] + cj + Seq::<char>::empty() =~= seq![' '] + cj);
    }
    assert(resolve_spec(trim(source), regs, s) == Ok::<Seq<usize>, Seq<char>>(seq![i as usize])) by {
        lemma_resolve_ref('q', i, n, s);
    }
    assert(resolve_spec(trim(dest), cregs, s) == Ok::<Seq<usize>, Seq<char>>(seq![j as usize])) by {
        lemma_resolve_ref('c', j, n, s);
    }
    lemma_measure_parts(c, s, rest, source, dest, regs, cregs, i as usize, j as usize);
    assert(sp_measure_into(c, seq![i as usize], seq![j as usize]) == with_op(c, o)) by {
        assert(seq![i as usize].drop_last() =~= Seq::<usize>::empty());
        assert(seq![j as usize].drop_last() =~= Seq::<usize>::empty());
        assert(sp_measure_into(c, Seq::<usize>::empty(), Seq::<usize>::empty()) == c);
    }
}

/// Reading a number's decimal text as a `u64` gives the number back.
proof fn lemma_parse_decimal_u64(v: u64)
    ensures
        crate::text::parse_u64_spec(decimal(v as nat)) == Some(v),
        trim(decimal(v as nat)) == decimal(v as nat),
{
    lemma_decimal_reads_back(v as nat);
    assert(parse_nat(decimal(v as nat)) == Some(v as nat));
    let d = decimal(v as nat);
    assert(is_digit(d[0]) && is_digit(d[d.len() - 1]));
    lemma_trim_plain(d);
}

/// The text after `if` in a guarded statement: the comparison in brackets,
/// a space, then the body of its gate.
pub open spec fn guard_rest(value: u64, gb: Seq<char>) -> Seq<char> {
    seq!['(', 'c', '=', '='] + decimal(value as nat) + seq![')', ' '] + gb
}

/// A guarded statement comes apart as the importer reads it: after `if`, a
/// comparison in brackets, then the body of its gate.
proof fn lemma_if_text(value: u64, gb: Seq<char>)
    requires
        gb.len() > 0,
        !is_ws(gb[0]),
        !is_ws(gb[gb.len() - 1]),
    ensures
        ({
            let r0 = guard_rest(value, gb);
            let close: int = decimal(value as nat).len() as int + 4;
            &&& strip_prefix(guard_text(value) + gb, "if"@) == Some(r0)
            &&& trim(r0) == r0
            &&& r0.len() > 0 && r0[0] == '('
            &&& first_index(r0, ')') == Some(close)
            &&& trim(r0.skip(close + 1)) == gb
            &&& split_once_pair(r0.subrange(1, close), '=', '=') == Some((seq!['c'], decimal(value as nat)))
        }),
{
    reveal_strlit("if(c==");
    reveal_strlit(") ");
    reveal_strlit("if");
    let d = decimal(value as nat);
    lemma_decimal_reads_back(value as nat);
    let r0 = guard_rest(value, gb);
    let close: int = d.len() as int + 4;
    assert(guard_text(value) + gb =~= "if"@ + r0);
    lemma_strip_prefix_of("if"@, r0);
    assert(r0[r0.len() - 1] == gb[gb.len() - 1]);
    lemma_trim_plain(r0);
    assert(r0[close] == ')');
    assert forall|m: int| 0 <= m < close implies r0[m] != ')' by {
        if 4 <= m < close {
            assert(r0[m] == d[m - 4]);
            assert(is_digit(d[m - 4]));
        }
    }
    lemma_first_index_is(r0, ')', close);
    assert(r0.skip(close + 1) =~= seq![' '] + gb + Seq::<char>::empty());
    lemma_trim_padded(seq![' '], gb, Seq::empty());
    let inner = r0.subrange(1, close);
    assert(inner =~= seq!['c'] + seq!['=', '='] + d);
    assert(pair_at(inner, 1, '=', '='));
    assert(inner[0] == 'c');
    lemma_first_pair_is(inner, '=', '=', 1);
    assert(inner.take(1) =~= seq!['c']);
    assert(inner.skip(3) =~= d);
}

/// A guarded statement whose parts read back reads back as its guarded
/// call.
proof fn lemma_if_parts(
    c: CircuitV,
    s: Seq<char>,
    r0: Seq<char>,
    close: int,
    body: Seq<char>,
    lhs: Seq<char>,
    rhs: Seq<char>,
    creg: Reg,
    v: u64,
    regs: Seq<(Seq<char>, Reg)>,
    cregs: Seq<(Seq<char>, Reg)>,
    defs: Seq<(Seq<char>, GateDefV)>,
    budget: nat,
    blk: CircuitV,
    b2: nat,
)
    requires
        strip_prefix(s, "if"@) == Some(r0),
        trim(r0) == r0,
        r0.len() > 0 && r0[0] == '(',
        first_index(r0, ')') == Some(close),
        trim(r0.skip(close + 1)) == body,
        split_once_pair(r0.subrange(1, close), '=', '=') == Some((lhs, rhs)),
        lookup_reg(cregs, trim(lhs)) == Some(creg),
        crate::text::parse_u64_spec(trim(rhs)) == Some(v),
        body.len() > 0,
        !not_a_gate(keyword_of(body)),
        gate_spec(CircuitV { n_qubits: c.n_qubits, ops: Seq::empty() }, body, regs, defs, budget) == Ok::<
            (CircuitV, nat),
            Seq<char>,
        >((blk, b2)),
    ensures
        crate::qasm::if_spec(c, s, regs, cregs, defs, budget) == Ok::<(CircuitV, nat), Seq<char>>(
            (crate::qasm::guarded(c, v, creg, blk.ops), b2),
        ),
{
    reveal(crate::qasm::if_spec);
}

/// Guarding the one gate of a guarded operation by its value, on a register
/// that starts at the first bit, gives that operation back.
proof fn lemma_guard_one(c: CircuitV, o: OpV)
    requires
        plain_op(o, c.n_qubits as nat),
        o is Conditional,
    ensures
        crate::qasm::guarded(
            c,
            o->Conditional_value,
            Reg { offset: 0, size: c.n_qubits as usize },
            seq![OpV::Gate(o->Conditional_ops[0])],
        ) == with_op(c, o),
{
    let g = o->Conditional_ops[0];
    assert(crate::qasm::shifted(o->Conditional_value as nat, 0) == o->Conditional_value);
    assert(crate::circuit::gates_of(seq![OpV::Gate(g)]) =~= seq![g]);
    assert(o->Conditional_ops =~= seq![g]);
}

/// `if(c==v) gate` appends that gate under its guard, using one built-in
/// gate of the budget.
#[verifier::spinoff_prover]
pub proof fn lemma_if_stmt(c: CircuitV, o: OpV, budget: nat)
    requires
        plain_op(o, c.n_qubits as nat),
        o is Conditional,
        budget > 0,
    ensures
        crate::qasm::if_spec(
            c,
            op_body(o),
            one_reg(seq!['q'], c.n_qubits as nat),
            one_reg(seq!['c'], c.n_qubits as nat),
            Seq::empty(),
            budget,
        ) == Ok::<(CircuitV, nat), Seq<char>>((with_op(c, o), (budget - 1) as nat)),
{
    let n = c.n_qubits as nat;
    let value = o->Conditional_value;
    let g = o->Conditional_ops[0];
    let go = OpV::Gate(g);
    let gb = gate_body(g);
    let s = op_body(o);
    let regs = one_reg(seq!['q'], n);
    let cregs = one_reg(seq!['c'], n);
    let creg = Reg { offset: 0, size: n as usize };
    let empty = CircuitV { n_qubits: c.n_qubits, ops: Seq::empty() };
    let r0 = guard_rest(value, gb);
    let close: int = decimal(value as nat).len() as int + 4;
    assert(s == guard_text(value) + gb);
    assert(gate_spec(empty, gb, regs, Seq::empty(), budget) == Ok::<(CircuitV, nat), Seq<char>>(
        (with_op(empty, go), (budget - 1) as nat),
    ) && gb.len() > 0 && !not_a_gate(keyword_of(gb))) by {
        lemma_gate_body_plain(g, n);
        lemma_op_keyword(go, n);
        lemma_op_keyword_kind(go, n);
        lemma_gate_name(go, n);
        lemma_gate_stmt(empty, go, budget);
    }
    assert(lookup_reg(cregs, trim(seq!['c'])) == Some(creg)) by {
        lemma_trim_plain(seq!['c']);
    }
    assert(crate::text::parse_u64_spec(trim(decimal(value as nat))) == Some(value)) by {
        lemma_parse_decimal_u64(value);
    }
    assert(strip_prefix(s, "if"@) == Some(r0) && trim(r0) == r0 && r0.len() > 0 && r0[0] == '('
        && first_index(r0, ')') == Some(close) && trim(r0.skip(close + 1)) == gb && split_once_pair(
        r0.subrange(1, close),
        '=',
        '=',
    ) == Some((seq!['c'], decimal(value as nat)))) by {
        lemma_gate_body_plain(g, n);
        lemma_if_text(value, gb);
    }
    lemma_if_parts(
        c,
        s,
        r0,
        close,
        gb,
        seq!['c'],
        decimal(value as nat),
        creg,
        value,
        regs,
        cregs,
        Seq::empty(),
        budget,
        with_op(empty, go),
        (budget - 1) as nat,
    );
    assert(with_op(empty, go).ops =~= seq![go]);
    lemma_guard_one(c, o);
}

/// `reset q[i]` appends that reset.
#[verifier::spinoff_prover]
pub proof fn lemma_reset_stmt(c: CircuitV, i: nat)
    requires
        i < c.n_qubits,
    ensures
        reset_spec(c, op_body(OpV::Reset { qubit: i as usize }), one_reg(seq!['q'], c.n_qubits as nat)) == Ok::<
            CircuitV,
            Seq<char>,
        >(with_op(c, OpV::Reset { qubit: i as usize })),
{
    reveal(reset_spec);
    let n = c.n_qubits as nat;
    let o = OpV::Reset { qubit: i as usize };
    let s = op_body(o);
    let qi = qref('q', i);
    let rest = seq![' '] + qi;
    assert(s =~= "reset"@ + rest);
    lemma_strip_prefix_of("reset"@, rest);
    lemma_qref_chars('q', i);
    lemma_trim_padded(seq![' '], qi, Seq::empty());
    assert(seq![' '] + qi + Seq::<char>::empty() =~= rest);
    lemma_resolve_ref('q', i, n, s);
    assert(sp_reset_each(c, seq![i as usize]) == with_op(c, o)) by {
        assert(seq![i as usize].drop_last() =~= Seq::<usize>::empty());
        assert(sp_reset_each(c, Seq::<usize>::empty()) == c);
    }
}

// ---------------------------------------------------------------------------
// The header.
// ---------------------------------------------------------------------------

/// The statements of the header, before their `;`.
pub open spec fn header_bodies(c: CircuitV) -> Seq<Seq<char>> {
    let n = c.n_qubits as nat;
    let base = seq!["OPENQASM 2.0"@, "include \"qelib1.inc\""@, "qreg"@ + seq![' '] + qref('q', n)];
    if any_measure(c.ops) || any_conditional(c.ops) {
        base.push("creg"@ + seq![' '] + qref('c', n))
    } else {
        base
    }
}

/// The header's statements read as its bodies and their `;`.
proof fn lemma_header_text(c: CircuitV)
    ensures
        header(c).len() == header_bodies(c).len(),
        forall|k: int| 0 <= k < header(c).len() ==> stmt_text(#[trigger] header(c)[k]) == header_bodies(c)[k] + seq![';'],
{
    reveal(qref);
    reveal_strlit("OPENQASM 2.0;");
    reveal_strlit("OPENQASM 2.0");
    reveal_strlit("include \"qelib1.inc\";");
    reveal_strlit("include \"qelib1.inc\"");
    reveal_strlit("qreg q[");
    reveal_strlit("creg c[");
    reveal_strlit("];");
    reveal_strlit("qreg");
    reveal_strlit("creg");
    let h = header(c);
    let b = header_bodies(c);
    assert(stmt_text(h[0]) =~= b[0] + seq![';']);
    assert(stmt_text(h[1]) =~= b[1] + seq![';']);
    assert(stmt_text(h[2]) =~= b[2] + seq![';']);
    if h.len() == 4 {
        assert(stmt_text(h[3]) =~= b[3] + seq![';']);
    }
}

/// Every character of `s` is plain.
pub open spec fn all_plain(s: Seq<char>) -> bool {
    forall|i: int| 0 <= i < s.len() ==> plain_char(#[trigger] s[i])
}

/// Plain text joined to plain text is plain.
proof fn lemma_plain_cat(a: Seq<char>, b: Seq<char>)
    requires
        all_plain(a),
        all_plain(b),
    ensures
        all_plain(a + b),
{
    assert forall|i: int| 0 <= i < (a + b).len() implies plain_char(#[trigger] (a + b)[i]) by {
        if i < a.len() {
            assert((a + b)[i] == a[i]);
        } else {
            assert((a + b)[i] == b[i - a.len()]);
        }
    }
}

/// A reference is plain text.
proof fn lemma_qref_plain(r: char, k: nat)
    requires
        crate::text::is_alpha(r),
    ensures
        all_plain(qref(r, k)),
        qref(r, k).len() > 0,
        !is_ws(qref(r, k)[qref(r, k).len() - 1]),
{
    lemma_qref_ref_chars(r, k);
    lemma_qref_chars(r, k);
    assert forall|i: int| 0 <= i < qref(r, k).len() implies plain_char(#[trigger] qref(r, k)[i]) by {
        assert(ref_char(qref(r, k)[i]));
    }
}

/// A word, a space, and plain text ending in `]` is a plain body.
proof fn lemma_word_body(w: Seq<char>, rest: Seq<char>)
    requires
        word(w),
        all_plain(rest),
        rest.len() > 0,
        !is_ws(rest[rest.len() - 1]),
    ensures
        plain_body(w + seq![' '] + rest),
{
    assert(all_plain(w)) by {
        assert forall|i: int| 0 <= i < w.len() implies plain_char(#[trigger] w[i]) by {
            assert(crate::text::is_alpha(w[i]));
        }
    }
    assert(all_plain(seq![' ']));
    lemma_plain_cat(w, seq![' ']);
    lemma_plain_cat(w + seq![' '], rest);
    let b = w + seq![' '] + rest;
    assert(b[0] == w[0]);
    assert(b[b.len() - 1] == rest[rest.len() - 1]);
    assert(crate::text::is_alpha(w[0]));
}

/// Each header statement is a plain body, with the keyword it is read by.
proof fn lemma_header_bodies(c: CircuitV)
    ensures
        forall|k: int| 0 <= k < header_bodies(c).len() ==> plain_body(#[trigger] header_bodies(c)[k]),
        keyword_of(header_bodies(c)[0]) == "OPENQASM"@,
        keyword_of(header_bodies(c)[1]) == "include"@,
        keyword_of(header_bodies(c)[2]) == "qreg"@,
        header_bodies(c).len() == 4 ==> keyword_of(header_bodies(c)[3]) == "creg"@,
        header_bodies(c).len() == 3 || header_bodies(c).len() == 4,
{
    reveal_strlit("OPENQASM 2.0");
    reveal_strlit("include \"qelib1.inc\"");
    reveal_strlit("OPENQASM");
    reveal_strlit("include");
    reveal_strlit("qreg");
    reveal_strlit("creg");
    let n = c.n_qubits as nat;
    let b = header_bodies(c);
    let v = "OPENQASM 2.0"@;
    assert(v =~= seq!['O', 'P', 'E', 'N', 'Q', 'A', 'S', 'M'] + seq![' '] + seq!['2', '.', '0']);
    lemma_keyword_of_word(seq!['O', 'P', 'E', 'N', 'Q', 'A', 'S', 'M'], seq![' ', '2', '.', '0']);
    assert(seq!['O', 'P', 'E', 'N', 'Q', 'A', 'S', 'M'] + seq![' ', '2', '.', '0'] =~= v);
    assert(plain_body(v));
    let inc = "include \"qelib1.inc\""@;
    let iw = seq!['i', 'n', 'c', 'l', 'u', 'd', 'e'];
    let irest = seq![' ', '"', 'q', 'e', 'l', 'i', 'b', '1', '.', 'i', 'n', 'c', '"'];
    assert(inc =~= iw + irest);
    lemma_keyword_of_word(iw, irest);
    assert(plain_body(inc));
    lemma_qref_plain('q', n);
    lemma_qref_chars('q', n);
    let qw = seq!['q', 'r', 'e', 'g'];
    assert("qreg"@ =~= qw);
    lemma_word_body(qw, qref('q', n));
    lemma_keyword_of_word(qw, seq![' '] + qref('q', n));
    assert(qw + seq![' '] + qref('q', n) =~= qw + (seq![' '] + qref('q', n)));
    if b.len() == 4 {
        lemma_qref_plain('c', n);
        let cw = seq!['c', 'r', 'e', 'g'];
        assert("creg"@ =~= cw);
        lemma_word_body(cw, qref('c', n));
        lemma_keyword_of_word(cw, seq![' '] + qref('c', n));
        assert(cw + seq![' '] + qref('c', n) =~= cw + (seq![' '] + qref('c', n)));
    }
}

/// A statement of an operation that needs no number is a plain body.
proof fn lemma_op_body_plain(o: OpV, n: nat)
    requires
        plain_op(o, n),
    ensures
        plain_body(op_body(o)),
{
    match o {
        OpV::Measure { qubit, clbit } => {
            reveal_strlit("measure");
            let w = seq!['m', 'e', 'a', 's', 'u', 'r', 'e'];
            assert("measure"@ =~= w);
            lemma_qref_plain('q', qubit as nat);
            lemma_qref_plain('c', clbit as nat);
            let arrow = seq![' ', '-', '>', ' '];
            assert(all_plain(arrow));
            lemma_plain_cat(qref('q', qubit as nat), arrow);
            lemma_plain_cat(qref('q', qubit as nat) + arrow, qref('c', clbit as nat));
            let rest = qref('q', qubit as nat) + arrow + qref('c', clbit as nat);
            assert(rest[rest.len() - 1] == qref('c', clbit as nat)[qref('c', clbit as nat).len() - 1]);
            lemma_word_body(w, rest);
            assert(op_body(o) =~= w + seq![' '] + rest);
        },
        OpV::Reset { qubit } => {
            reveal_strlit("reset");
            let w = seq!['r', 'e', 's', 'e', 't'];
            assert("reset"@ =~= w);
            lemma_qref_plain('q', qubit as nat);
            lemma_word_body(w, qref('q', qubit as nat));
            assert(op_body(o) =~= w + seq![' '] + qref('q', qubit as nat));
        },
        OpV::Conditional { value, ops } => {
            reveal_strlit("if(c==");
            reveal_strlit(") ");
            let g = ops[0];
            lemma_gate_body_plain(g, n);
            let gb = gate_body(g);
            let d = decimal(value as nat);
            lemma_decimal_reads_back(value as nat);
            assert(all_plain(d)) by {
                assert forall|i: int| 0 <= i < d.len() implies plain_char(#[trigger] d[i]) by {
                    assert(is_digit(d[i]));
                }
            }
            let open = seq!['i', 'f', '(', 'c', '=', '='];
            let close = seq![')', ' '];
            assert(all_plain(open));
            assert(all_plain(close));
            lemma_plain_cat(open, d);
            lemma_plain_cat(open + d, close);
            lemma_plain_cat(open + d + close, gb);
            let b = open + d + close + gb;
            assert(op_body(o) =~= b);
            assert(b[0] == 'i');
            assert(b[b.len() - 1] == gb[gb.len() - 1]);
        },
        OpV::Gate(g) => {
            lemma_gate_body_plain(g, n);
        },
    }
}

/// The statement of a gate that needs no number is a plain body.
proof fn lemma_gate_body_plain(g: GateOpV, n: nat)
    requires
        plain_gate(g, n),
    ensures
        plain_body(gate_body(g)),
{
    let o = OpV::Gate(g);
    lemma_gate_name(o, n);
    lemma_gate_operands_text(o);
    let qs = gate_qubits(o);
    let l = qubit_list(qs);
    if qs.len() == 1 {
        lemma_qref_plain('q', qs[0] as nat);
    } else {
        lemma_qref_plain('q', qs[0] as nat);
        lemma_qref_plain('q', qs[1] as nat);
        assert(all_plain(seq![',']));
        lemma_plain_cat(qref('q', qs[0] as nat), seq![',']);
        lemma_plain_cat(qref('q', qs[0] as nat) + seq![','], qref('q', qs[1] as nat));
        if qs.len() == 3 {
            let two = qref('q', qs[0] as nat) + seq![','] + qref('q', qs[1] as nat);
            lemma_qref_plain('q', qs[2] as nat);
            lemma_plain_cat(two, seq![',']);
            lemma_plain_cat(two + seq![','], qref('q', qs[2] as nat));
        }
    }
    lemma_word_body(gate_name(o), l);
}

// ---------------------------------------------------------------------------
// The registers, and the statements run in order.
// ---------------------------------------------------------------------------

/// The pieces of `r[k]` as the importer reads them: the name `r` before the
/// `[`, and `k` between the brackets.
proof fn lemma_qref_fields(r: char, k: nat)
    requires
        crate::text::is_alpha(r),
        k <= usize::MAX,
    ensures
        first_index(qref(r, k), '[') == Some(1int),
        first_index(qref(r, k), ']') == Some(qref(r, k).len() - 1),
        trim(qref(r, k).take(1)) == seq![r],
        parse_usize_spec(trim(qref(r, k).subrange(2, qref(r, k).len() - 1))) == Some(k as usize),
{
    let q = qref(r, k);
    lemma_qref_chars(r, k);
    lemma_first_index_is(q, '[', 1);
    assert forall|m: int| 0 <= m < q.len() - 1 implies q[m] != ']' by {
        if m >= 2 {
            assert(is_digit(q[m]));
        }
    }
    lemma_first_index_is(q, ']', q.len() - 1);
    assert(q.take(1) =~= seq![r]);
    lemma_trim_plain(seq![r]);
    lemma_parse_decimal(k);
    let d = decimal(k);
    assert(is_digit(d[0]) && is_digit(d[d.len() - 1]));
    lemma_trim_plain(d);
}

/// `kw r[n]` declares the register `r` of `n` bits.
proof fn lemma_reg_decl(kw: Seq<char>, r: char, n: nat)
    requires
        crate::text::is_alpha(r),
        1 <= n <= usize::MAX,
    ensures
        reg_decl_spec(kw + seq![' '] + qref(r, n), kw) == Ok::<(Seq<char>, usize), Seq<char>>((seq![r], n as usize)),
{
    reveal(reg_decl_spec);
    let stmt = kw + seq![' '] + qref(r, n);
    let rest0 = seq![' '] + qref(r, n);
    assert(stmt =~= kw + rest0);
    lemma_strip_prefix_of(kw, rest0);
    lemma_qref_padded(r, n, seq![' '], Seq::empty());
    assert(seq![' '] + qref(r, n) + Seq::<char>::empty() =~= rest0);
    lemma_qref_fields(r, n);
}

/// Statements with no register declaration of kind `kw` from `k` on add no
/// quantum register.
proof fn lemma_qregs_rest(stmts: Seq<Seq<char>>, k: int, regs: Seq<(Seq<char>, Reg)>, total: nat)
    requires
        0 <= k <= stmts.len(),
        forall|m: int| k <= m < stmts.len() ==> keyword_of(#[trigger] stmts[m]) != "qreg"@,
    ensures
        qregs_from(stmts, k, regs, total) == Ok::<(Seq<(Seq<char>, Reg)>, nat), Seq<char>>((regs, total)),
    decreases stmts.len() - k,
{
    if k < stmts.len() {
        lemma_qregs_rest(stmts, k + 1, regs, total);
    }
}

/// Statements with no classical register declaration from `k` on add no
/// classical register.
proof fn lemma_cregs_rest(stmts: Seq<Seq<char>>, k: int, cregs: Seq<(Seq<char>, Reg)>, total: nat, n: nat)
    requires
        0 <= k <= stmts.len(),
        forall|m: int| k <= m < stmts.len() ==> keyword_of(#[trigger] stmts[m]) != "creg"@,
    ensures
        cregs_from(stmts, k, cregs, total, n) == Ok::<Seq<(Seq<char>, Reg)>, Seq<char>>(cregs),
    decreases stmts.len() - k,
{
    if k < stmts.len() {
        lemma_cregs_rest(stmts, k + 1, cregs, total, n);
    }
}

/// Statements with no `gate` declaration from `k` on declare no gate.
proof fn lemma_defs_rest(stmts: Seq<Seq<char>>, k: int, defs: Seq<(Seq<char>, GateDefV)>)
    requires
        0 <= k <= stmts.len(),
        forall|m: int| k <= m < stmts.len() ==> keyword_of(#[trigger] stmts[m]) != "gate"@,
    ensures
        defs_from(stmts, k, defs) == Ok::<Seq<(Seq<char>, GateDefV)>, Seq<char>>(defs),
    decreases stmts.len() - k,
{
    if k < stmts.len() {
        lemma_defs_rest(stmts, k + 1, defs);
    }
}

/// The keyword of an operation's statement is no declaration and is not
/// skipped.
proof fn lemma_op_keyword_kind(o: OpV, n: nat)
    requires
        plain_op(o, n),
    ensures
        keyword_of(op_body(o)) != "qreg"@,
        keyword_of(op_body(o)) != "creg"@,
        keyword_of(op_body(o)) != "gate"@,
        !skipped(keyword_of(op_body(o))),
        o is Measure ==> keyword_of(op_body(o)) == "measure"@,
        o is Reset ==> keyword_of(op_body(o)) == "reset"@ && keyword_of(op_body(o)) != "measure"@,
        o is Gate ==> !not_a_gate(keyword_of(op_body(o))),
        o is Conditional ==> keyword_of(op_body(o)) == "if"@ && keyword_of(op_body(o)) != "measure"@ && keyword_of(
            op_body(o),
        ) != "reset"@ && keyword_of(op_body(o)) != "opaque"@,
{
    lemma_op_keyword(o, n);
    reveal_strlit("if");
    reveal_strlit("opaque");
    reveal_strlit("measure");
    reveal_strlit("reset");
    reveal_strlit("qreg");
    reveal_strlit("creg");
    reveal_strlit("gate");
    reveal_strlit("OPENQASM");
    reveal_strlit("include");
    reveal_strlit("barrier");
    match o {
        OpV::Measure { .. } => {
            let w = "measure"@;
            assert(w.len() == 7 && w[0] == 'm');
            assert("include"@[0] == 'i');
            assert("barrier"@[0] == 'b');
            assert("OPENQASM"@.len() == 8);
            assert("qreg"@.len() == 4);
        },
        OpV::Reset { .. } => {
            let w = "reset"@;
            assert(w.len() == 5);
            assert("measure"@.len() == 7);
            assert("include"@.len() == 7);
            assert("barrier"@.len() == 7);
            assert("OPENQASM"@.len() == 8);
            assert("qreg"@.len() == 4);
        },
        OpV::Conditional { .. } => {
            assert("if"@.len() == 2);
            assert("measure"@.len() == 7);
            assert("include"@.len() == 7);
            assert("barrier"@.len() == 7);
            assert("OPENQASM"@.len() == 8);
            assert("qreg"@.len() == 4);
            assert("reset"@.len() == 5);
            assert("opaque"@.len() == 6);
        },
        _ => {
            lemma_gate_name(o, n);
        },
    }
}

/// Running the statements of the operations `c.ops[k..]`, from the circuit
/// of the ones before, rebuilds `c`.
#[verifier::spinoff_prover]
proof fn lemma_run_ops(
    bs: Seq<Seq<char>>,
    h: int,
    c: CircuitV,
    k: int,
    budget: nat,
    regs: Seq<(Seq<char>, Reg)>,
    cregs: Seq<(Seq<char>, Reg)>,
)
    requires
        0 <= h,
        0 <= k <= c.ops.len(),
        bs.len() == h + c.ops.len(),
        forall|i: int| 0 <= i < c.ops.len() ==> bs[h + i] == op_body(#[trigger] c.ops[i]),
        forall|i: int| 0 <= i < c.ops.len() ==> plain_op(#[trigger] c.ops[i], c.n_qubits as nat),
        regs == one_reg(seq!['q'], c.n_qubits as nat),
        any_measure(c.ops) || any_conditional(c.ops) ==> cregs == one_reg(seq!['c'], c.n_qubits as nat),
        budget + k >= c.ops.len(),
    ensures
        run_from(
            bs,
            h + k,
            regs,
            cregs,
            Seq::empty(),
            CircuitV { n_qubits: c.n_qubits, ops: c.ops.take(k) },
            budget,
        ) == Ok::<CircuitV, Seq<char>>(c),
    decreases c.ops.len() - k,
{
    let ck = CircuitV { n_qubits: c.n_qubits, ops: c.ops.take(k) };
    if k == c.ops.len() {
        assert(c.ops.take(k) =~= c.ops);
    } else {
        let o = c.ops[k];
        let n = c.n_qubits as nat;
        assert(bs[h + k] == op_body(o));
        assert(plain_op(o, n));
        lemma_op_keyword_kind(o, n);
        let next = CircuitV { n_qubits: c.n_qubits, ops: c.ops.take(k + 1) };
        assert(with_op(ck, o) == next) by {
            assert(c.ops.take(k).push(o) =~= c.ops.take(k + 1));
        }
        match o {
            OpV::Measure { qubit, clbit } => {
                assert(any_measure(c.ops));
                lemma_measure_stmt(ck, qubit as nat, clbit as nat);
                lemma_run_ops(bs, h, c, k + 1, budget, regs, cregs);
            },
            OpV::Reset { qubit } => {
                lemma_reset_stmt(ck, qubit as nat);
                lemma_run_ops(bs, h, c, k + 1, budget, regs, cregs);
            },
            OpV::Conditional { .. } => {
                assert(any_conditional(c.ops));
                lemma_if_stmt(ck, o, budget);
                lemma_run_ops(bs, h, c, k + 1, (budget - 1) as nat, regs, cregs);
            },
            _ => {
                lemma_gate_stmt(ck, o, budget);
                lemma_run_ops(bs, h, c, k + 1, (budget - 1) as nat, regs, cregs);
            },
        }
    }
}

// ---------------------------------------------------------------------------
// Export, then import.
// ---------------------------------------------------------------------------

/// A circuit the importer can hold whose every operation exports with no
/// number in it.
pub open spec fn exports_without_numbers(c: CircuitV) -> bool {
    &&& 1 <= c.n_qubits <= MAX_QUBITS
    &&& c.ops.len() <= MAX_EXPANDED_OPS
    &&& forall|i: int| 0 <= i < c.ops.len() ==> plain_op(#[trigger] c.ops[i], c.n_qubits as nat)
}

/// The bodies of the statements `c` exports as.
pub open spec fn export_bodies(c: CircuitV) -> Seq<Seq<char>> {
    header_bodies(c) + c.ops.map_values(|o: OpV| op_body(o))
}

/// The header's keywords, set against the declarations.
proof fn lemma_header_keywords()
    ensures
        "OPENQASM"@ != "qreg"@ && "OPENQASM"@ != "creg"@ && "OPENQASM"@ != "gate"@,
        "include"@ != "qreg"@ && "include"@ != "creg"@ && "include"@ != "gate"@,
        "qreg"@ != "creg"@ && "qreg"@ != "gate"@ && "creg"@ != "gate"@,
        skipped("OPENQASM"@) && skipped("include"@) && skipped("qreg"@) && skipped("creg"@),
{
    reveal_strlit("OPENQASM");
    reveal_strlit("include");
    reveal_strlit("qreg");
    reveal_strlit("creg");
    reveal_strlit("gate");
    assert("OPENQASM"@.len() == 8 && "include"@.len() == 7 && "qreg"@.len() == 4);
    assert("qreg"@[0] == 'q' && "creg"@[0] == 'c' && "gate"@[0] == 'g');
}

/// The statements `c` exports as read as its export bodies, with the
/// keywords the importer goes by.
proof fn lemma_export_bodies(c: CircuitV)
    requires
        exports_without_numbers(c),
    ensures
        ({
            let bs = export_bodies(c);
            let h = header_bodies(c).len() as int;
            &&& forall|k: int| 0 <= k < bs.len() ==> plain_body(#[trigger] bs[k])
            &&& forall|k: int| h <= k < bs.len() ==> keyword_of(#[trigger] bs[k]) != "qreg"@ && keyword_of(bs[k])
                != "creg"@ && keyword_of(bs[k]) != "gate"@
            &&& forall|i: int| 0 <= i < c.ops.len() ==> bs[h + i] == op_body(#[trigger] c.ops[i])
            &&& bs.len() == h + c.ops.len()
        }),
{
    let n = c.n_qubits as nat;
    let hb = header_bodies(c);
    let ob = c.ops.map_values(|o: OpV| op_body(o));
    let bs = export_bodies(c);
    let h = hb.len() as int;
    lemma_header_bodies(c);
    assert forall|i: int| 0 <= i < c.ops.len() implies bs[h + i] == op_body(#[trigger] c.ops[i]) by {
        assert(bs[h + i] == ob[i]);
    }
    assert forall|k: int| 0 <= k < bs.len() implies plain_body(#[trigger] bs[k]) by {
        if k < h {
            assert(bs[k] == hb[k]);
        } else {
            assert(bs[k] == op_body(c.ops[k - h]));
            lemma_op_body_plain(c.ops[k - h], n);
        }
    }
    assert forall|k: int| h <= k < bs.len() implies keyword_of(#[trigger] bs[k]) != "qreg"@ && keyword_of(bs[k])
        != "creg"@ && keyword_of(bs[k]) != "gate"@ by {
        assert(bs[k] == op_body(c.ops[k - h]));
        lemma_op_keyword_kind(c.ops[k - h], n);
    }
}

/// The statements such a circuit exports as: its header and one per
/// operation.
pub open spec fn export_stmts(c: CircuitV) -> Seq<QasmStmtV> {
    header(c) + c.ops.map_values(|o: OpV| op_stmt(o))
}

/// The export of such a circuit: its header and one statement per
/// operation, each with no number, reading as its bodies.
proof fn lemma_export_text(c: CircuitV)
    requires
        exports_without_numbers(c),
    ensures
        qasm_plan_spec(c) == Ok::<Seq<QasmStmtV>, crate::export::ExportErrorV>(export_stmts(c)),
        forall|k: int| 0 <= k < export_stmts(c).len() ==> needs_no_number(#[trigger] export_stmts(c)[k].line),
        program_text(export_stmts(c)) == bodies_text(export_bodies(c)),
{
    let n = c.n_qubits as nat;
    lemma_ops_plan_plain(n, c.ops);
    let p = export_stmts(c);
    let bs = export_bodies(c);
    let hb = header_bodies(c);
    let h = hb.len() as int;
    lemma_header_text(c);
    lemma_export_bodies(c);
    lemma_header_bodies(c);
    assert forall|k: int| 0 <= k < p.len() implies needs_no_number(#[trigger] p[k].line) && stmt_text(p[k])
        == bs[k] + seq![';'] by {
        if k < h {
            assert(p[k] == header(c)[k]);
            assert(bs[k] == hb[k]);
        } else {
            assert(p[k] == op_stmt(c.ops[k - h]));
            assert(plain_op(c.ops[k - h], n));
            lemma_op_plan_plain(n, c.ops[k - h]);
        }
    }
    lemma_program_text(p, bs);
}

/// The quantum registers of the export: `q`, the whole register.
proof fn lemma_export_qregs(c: CircuitV)
    requires
        exports_without_numbers(c),
    ensures
        qregs_from(export_bodies(c), 0, Seq::empty(), 0) == Ok::<(Seq<(Seq<char>, Reg)>, nat), Seq<char>>(
            (one_reg(seq!['q'], c.n_qubits as nat), c.n_qubits as nat),
        ),
{
    let n = c.n_qubits as nat;
    let bs = export_bodies(c);
    let hb = header_bodies(c);
    let h = hb.len() as int;
    let regs = one_reg(seq!['q'], n);
    lemma_export_bodies(c);
    lemma_header_bodies(c);
    lemma_header_keywords();
    lemma_reg_decl("qreg"@, 'q', n);
    assert(bs[0] == hb[0] && bs[1] == hb[1] && bs[2] == hb[2]);
    assert(bs[2] == "qreg"@ + seq![' '] + qref('q', n));
    assert(lookup_reg(Seq::<(Seq<char>, Reg)>::empty(), seq!['q']) is None);
    assert(Seq::<(Seq<char>, Reg)>::empty().push((seq!['q'], Reg { offset: 0, size: n as usize })) =~= regs);
    assert forall|m: int| 3 <= m < bs.len() implies keyword_of(#[trigger] bs[m]) != "qreg"@ by {
        if m < h {
            assert(bs[m] == hb[3]);
        }
    }
    lemma_qregs_rest(bs, 3, regs, n);
    let e = Seq::<(Seq<char>, Reg)>::empty();
    assert(qregs_from(bs, 0, e, 0) == qregs_from(bs, 1, e, 0));
    assert(qregs_from(bs, 1, e, 0) == qregs_from(bs, 2, e, 0));
    assert(qregs_from(bs, 2, e, 0) == qregs_from(bs, 3, regs, n));
}

/// The classical registers of the export: `c`, as wide, when it measures.
proof fn lemma_export_cregs(c: CircuitV)
    requires
        exports_without_numbers(c),
    ensures
        cregs_from(export_bodies(c), 0, Seq::empty(), 0, c.n_qubits as nat) == Ok::<Seq<(Seq<char>, Reg)>, Seq<char>>(
            if header_bodies(c).len() == 4 { one_reg(seq!['c'], c.n_qubits as nat) } else { Seq::empty() },
        ),
{
    let n = c.n_qubits as nat;
    let bs = export_bodies(c);
    let hb = header_bodies(c);
    let h = hb.len() as int;
    lemma_export_bodies(c);
    lemma_header_bodies(c);
    lemma_header_keywords();
    assert(bs[0] == hb[0] && bs[1] == hb[1] && bs[2] == hb[2]);
    if h == 4 {
        let cregs = one_reg(seq!['c'], n);
        lemma_reg_decl("creg"@, 'c', n);
        assert(bs[3] == hb[3]);
        assert(bs[3] == "creg"@ + seq![' '] + qref('c', n));
        assert(lookup_reg(Seq::<(Seq<char>, Reg)>::empty(), seq!['c']) is None);
        assert(Seq::<(Seq<char>, Reg)>::empty().push((seq!['c'], Reg { offset: 0, size: n as usize })) =~= cregs);
        lemma_cregs_rest(bs, 4, cregs, n, n);
        let e = Seq::<(Seq<char>, Reg)>::empty();
        assert(cregs_from(bs, 0, e, 0, n) == cregs_from(bs, 1, e, 0, n));
        assert(cregs_from(bs, 1, e, 0, n) == cregs_from(bs, 2, e, 0, n));
        assert(cregs_from(bs, 2, e, 0, n) == cregs_from(bs, 3, e, 0, n));
        assert(cregs_from(bs, 3, e, 0, n) == cregs_from(bs, 4, cregs, n, n));
    } else {
        lemma_cregs_rest(bs, 3, Seq::empty(), 0, n);
        let e = Seq::<(Seq<char>, Reg)>::empty();
        assert(cregs_from(bs, 0, e, 0, n) == cregs_from(bs, 1, e, 0, n));
        assert(cregs_from(bs, 1, e, 0, n) == cregs_from(bs, 2, e, 0, n));
        assert(cregs_from(bs, 2, e, 0, n) == cregs_from(bs, 3, e, 0, n));
    }
}

/// The export declares no gate of its own.
proof fn lemma_export_defs(c: CircuitV)
    requires
        exports_without_numbers(c),
    ensures
        defs_from(export_bodies(c), 0, Seq::empty()) == Ok::<Seq<(Seq<char>, GateDefV)>, Seq<char>>(Seq::empty()),
{
    let bs = export_bodies(c);
    let hb = header_bodies(c);
    let h = hb.len() as int;
    lemma_export_bodies(c);
    lemma_header_bodies(c);
    lemma_header_keywords();
    assert forall|m: int| 0 <= m < bs.len() implies keyword_of(#[trigger] bs[m]) != "gate"@ by {
        if m < h {
            assert(bs[m] == hb[m]);
        }
    }
    lemma_defs_rest(bs, 0, Seq::empty());
}

/// Running the export's statements skips the header and rebuilds `c`.
proof fn lemma_export_run(c: CircuitV)
    requires
        exports_without_numbers(c),
    ensures
        run_from(
            export_bodies(c),
            0,
            one_reg(seq!['q'], c.n_qubits as nat),
            if header_bodies(c).len() == 4 { one_reg(seq!['c'], c.n_qubits as nat) } else { Seq::empty() },
            Seq::empty(),
            CircuitV { n_qubits: c.n_qubits, ops: Seq::empty() },
            MAX_EXPANDED_OPS as nat,
        ) == Ok::<CircuitV, Seq<char>>(c),
{
    let n = c.n_qubits as nat;
    let bs = export_bodies(c);
    let hb = header_bodies(c);
    let h = hb.len() as int;
    let regs = one_reg(seq!['q'], n);
    let cregs = if h == 4 { one_reg(seq!['c'], n) } else { Seq::empty() };
    lemma_export_bodies(c);
    lemma_header_bodies(c);
    lemma_header_keywords();
    assert(any_measure(c.ops) || any_conditional(c.ops) ==> h == 4);
    assert(c.ops.take(0) =~= Seq::<OpV>::empty());
    lemma_run_ops(bs, h, c, 0, MAX_EXPANDED_OPS as nat, regs, cregs);
    assert(bs[0] == hb[0] && bs[1] == hb[1] && bs[2] == hb[2]);
    let start = CircuitV { n_qubits: c.n_qubits, ops: Seq::empty() };
    let b = MAX_EXPANDED_OPS as nat;
    let e = Seq::<(Seq<char>, GateDefV)>::empty();
    assert(run_from(bs, 0, regs, cregs, e, start, b) == run_from(bs, 1, regs, cregs, e, start, b));
    assert(run_from(bs, 1, regs, cregs, e, start, b) == run_from(bs, 2, regs, cregs, e, start, b));
    assert(run_from(bs, 2, regs, cregs, e, start, b) == run_from(bs, 3, regs, cregs, e, start, b));
    if h == 4 {
        assert(bs[3] == hb[3]);
        assert(run_from(bs, 3, regs, cregs, e, start, b) == run_from(bs, 4, regs, cregs, e, start, b));
    }
}

/// Importing the bodies' text gives `c`.
proof fn lemma_export_import(c: CircuitV)
    requires
        exports_without_numbers(c),
    ensures
        qasm_spec(bodies_text(export_bodies(c))) == Ok::<CircuitV, Seq<char>>(c),
{
    let bs = export_bodies(c);
    let text = bodies_text(bs);
    lemma_export_bodies(c);
    lemma_bodies_no_slash(bs);
    lemma_strip_nothing(text, 0);
    assert(text.skip(0) =~= text);
    lemma_statements_of_bodies(bs);
    lemma_export_qregs(c);
    lemma_export_cregs(c);
    lemma_export_defs(c);
    lemma_export_run(c);
}

/// A circuit that exports with no number in it, on a register the importer
/// can hold, is rebuilt exactly by importing the text of its own export:
/// every statement of the export is written without a number in its gate
/// (a guarded gate keeps its guard's value, which the register can hold),
/// and reading that program back gives the same register and the same
/// operations in the same order, guards included.
pub proof fn lemma_export_reimports(c: CircuitV)
    requires
        exports_without_numbers(c),
    ensures
        qasm_plan_spec(c) matches Ok(p) && (forall|k: int| 0 <= k < p.len() ==> needs_no_number(#[trigger] p[k].line))
            && qasm_spec(program_text(p)) == Ok::<CircuitV, Seq<char>>(c),
{
    lemma_export_text(c);
    lemma_export_import(c);
}

/// Exporting such a circuit, importing the program and exporting again
/// writes the same statements as the first export: the program is stable
/// through the importer.
pub proof fn lemma_export_stable(c: CircuitV)
    requires
        exports_without_numbers(c),
    ensures
        qasm_plan_spec(c) matches Ok(p) && qasm_spec(program_text(p)) matches Ok(c2) && qasm_plan_spec(c2)
            == qasm_plan_spec(c),
{
    lemma_export_reimports(c);
}

// ---------------------------------------------------------------------------
// Printing a statement that needs no number.
// ---------------------------------------------------------------------------

/// Append `q[k]`.
fn push_qref(out: &mut Vec<char>, k: usize)
    ensures
        final(out)@ == old(out)@ + qref('q', k as nat),
{
    reveal(qref);
    out.push('q');
    out.push('[');
    push_decimal(out, k as u64);
    out.push(']');
    proof {
        assert(final(out)@ =~= old(out)@ + qref('q', k as nat));
    }
}

/// Append `q[a],q[b],...`.
fn push_qubit_list(out: &mut Vec<char>, qubits: &[usize])
    ensures
        final(out)@ == old(out)@ + qubit_list(qubits@),
{
    let ghost start = out@;
    let mut k: usize = 0;
    proof {
        assert(qubit_list(qubits@.take(0)) =~= Seq::<char>::empty()) by {
            assert(qubits@.take(0) =~= Seq::<usize>::empty());
        }
        assert(out@ =~= start + qubit_list(qubits@.take(0)));
    }
    while k < qubits.len()
        invariant
            k <= qubits@.len(),
            out@ == start + qubit_list(qubits@.take(k as int)),
        decreases qubits@.len() - k,
    {
        let ghost before = out@;
        let ghost t = qubits@.take(k + 1);
        proof {
            assert(t.drop_last() =~= qubits@.take(k as int));
            assert(t.last() == qubits@[k as int]);
        }
        if k > 0 {
            out.push(',');
        }
        push_qref(out, qubits[k]);
        proof {
            if k == 0 {
                assert(t =~= seq![qubits@[0]]);
                assert(out@ =~= start + qubit_list(t));
            } else {
                assert(out@ =~= start + qubit_list(t));
            }
        }
        k = k + 1;
    }
    proof {
        assert(qubits@.take(qubits@.len() as int) =~= qubits@);
    }
}

/// The text of a statement of an exported program, when it needs no number
/// printed: written out in full, or a gate with no angles; `None` for a
/// statement with angles or a decomposition to compute.
pub fn statement_text(stmt: &QasmStmt) -> (r: Option<String>)
    ensures
        r is Some <==> needs_no_number(stmt@.line),
        r matches Some(t) ==> t@ == stmt_text(stmt@),
{
    let mut out: Vec<char> = Vec::new();
    match stmt.guard {
        Some(v) => {
            push_all(&mut out, chars_of("if(c==").as_slice());
            push_decimal(&mut out, v);
            push_all(&mut out, chars_of(") ").as_slice());
        },
        None => {},
    }
    let ghost prefix = out@;
    match &stmt.line {
        QasmLine::Text(t) => {
            push_all(&mut out, t.as_slice());
        },
        QasmLine::Gate { name, params, qubits } => {
            if params.len() > 0 {
                return None;
            }
            push_all(&mut out, chars_of(name).as_slice());
            out.push(' ');
            push_qubit_list(&mut out, qubits.as_slice());
            out.push(';');
            proof {
                assert(out@ =~= prefix + (name@ + seq![' '] + qubit_list(qubits@) + seq![';']));
            }
        },
        _ => {
            return None;
        },
    }
    proof {
        assert(out@ =~= stmt_text(stmt@));
    }
    Some(string_of(out.as_slice()))
}

} // verus!
