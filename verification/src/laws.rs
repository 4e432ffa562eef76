//! Properties of the library as a whole, each stated over the specifications
//! the functions' own contracts use.
use vstd::prelude::*;
use crate::circuit::{
    gates_of, gates_only, is_gate, sp_measure_into, sp_reset_each, with_op, CircuitV, GateOpV, GateV, Label, OpV,
};
use crate::diagram::{all_below, gate_in_range, gates_in_range, in_range, op_in_range};
use crate::expr::AngleV;
use crate::qasm::{
    angle_list_spec, apply_spec, body_qubits_from, body_qubits_spec, body_spec, cregs_from, defs_from, exprs_v,
    expand_spec, gate_spec, guarded, if_spec, keyword_of, lemma_gate_gates, lemma_lookup_in, lookup_def,
    lookup_reg, measure_spec, operands_from, operands_spec, parse_head_spec, qasm_spec, qregs_from,
    qubit_ref_spec, regs_bounded, reset_spec, resolve_spec, run_from, skipped, split_head_spec, statements_of,
    substituted, GateDefV, Reg, MAX_EXPANDED_OPS, MAX_GATE_DEPTH,
};
use crate::qelib::{builtin_of, effect, shape, Builtin};
use crate::program::{
    before_hash, cmd_of, controls_spec, guardable, instr_spec, lemma_instr_gates, line_spec, lines_from, program_spec,
    qubit_spec, qubits_from, Cmd, SampleSpec,
};
use crate::text::{decimal, lines_of, trim, words};
use crate::export::{
    block_plan, controlled_line, free_from, gate_op_plan, guarded_lines, header, mcx_plan, op_plan, ops_plan,
    qasm_plan_spec, QasmLineV, QasmStmtV,
};
use crate::diagram::{cell_text, cells, center, op_column, qubit_label, row, widest, widest_in, Tok};
use crate::rng::{lemma_xorshift_nonzero, seed_state, stream, xorshift};
use crate::qasm::strip_from;

verus! {

/// Every classical bit a measurement writes is in the register, which is
/// as wide as the quantum one.
pub open spec fn clbits_in_range(c: CircuitV) -> bool {
    forall|i: int| 0 <= i < c.ops.len() ==> (#[trigger] c.ops[i] matches OpV::Measure { clbit, .. } ==> clbit
        < c.n_qubits)
}

/// Every qubit and classical bit the circuit names is in its register, so
/// running or drawing it stays in range.
pub open spec fn well_formed(c: CircuitV) -> bool {
    in_range(c) && clbits_in_range(c)
}

/// The empty circuit over `n` qubits is well formed.
pub proof fn lemma_empty_well_formed(n: usize)
    ensures
        well_formed(CircuitV { n_qubits: n, ops: Seq::empty() }),
{
}

/// Appending an operation in range keeps a circuit well formed.
pub proof fn lemma_push_well_formed(c: CircuitV, op: OpV)
    requires
        well_formed(c),
        op_in_range(op, c.n_qubits as nat),
        op matches OpV::Measure { clbit, .. } ==> clbit < c.n_qubits,
    ensures
        well_formed(with_op(c, op)),
{
    let d = with_op(c, op);
    assert forall|i: int| 0 <= i < d.ops.len() implies op_in_range(#[trigger] d.ops[i], d.n_qubits as nat) by {
        if i < c.ops.len() {
            assert(d.ops[i] == c.ops[i]);
        }
    }
    assert forall|i: int| 0 <= i < d.ops.len() implies (#[trigger] d.ops[i] matches OpV::Measure { clbit, .. }
        ==> clbit < d.n_qubits) by {
        if i < c.ops.len() {
            assert(d.ops[i] == c.ops[i]);
        }
    }
}

/// A built-in gate on qubits of the register keeps a circuit well formed.
pub proof fn lemma_effect_well_formed(c: CircuitV, b: crate::qelib::Builtin, a: Seq<AngleV>, q: Seq<usize>)
    requires
        well_formed(c),
        q.len() == shape(b).0,
        all_below(q, c.n_qubits as nat),
    ensures
        well_formed(effect(c, b, a, q)),
        effect(c, b, a, q).n_qubits == c.n_qubits,
{
    let n = c.n_qubits as nat;
    let e = effect(c, b, a, q);
    assert forall|i: int| 0 <= i < q.len() implies #[trigger] q[i] < n by {}
    assert forall|i: int| 0 <= i < e.ops.len() implies op_in_range(#[trigger] e.ops[i], n) by {
        if i < c.ops.len() {
            assert(op_in_range(c.ops[i], n));
        } else {
            match e.ops[i] {
                OpV::Gate(g) => match g {
                    GateOpV::MultiControlled { controls, .. } => {
                        assert(all_below(controls, n));
                    },
                    _ => {},
                },
                _ => {},
            }
        }
    }
    assert forall|i: int| 0 <= i < e.ops.len() implies (#[trigger] e.ops[i] matches OpV::Measure { clbit, .. }
        ==> clbit < e.n_qubits) by {
        if i < c.ops.len() {
            assert(e.ops[i] == c.ops[i]);
        }
    }
}

/// A qubit reference resolved through registers placed below `n` is below
/// `n`.
pub proof fn lemma_qubit_ref_below(op: Seq<char>, regs: Seq<(Seq<char>, Reg)>, n: nat)
    requires
        regs_bounded(regs, n),
    ensures
        qubit_ref_spec(op, regs) matches Ok(q) ==> q < n,
{
    reveal(qubit_ref_spec);
    match qubit_ref_spec(op, regs) {
        Ok(q) => {
            let open = crate::text::first_index(op, '[')->0;
            lemma_lookup_in(regs, crate::text::trim(op.take(open)), n);
        },
        Err(_) => {},
    }
}

/// The operands of a list are below `n`.
pub proof fn lemma_operands_from_below(
    pieces: Seq<Seq<char>>,
    k: int,
    acc: Seq<usize>,
    regs: Seq<(Seq<char>, Reg)>,
    n: nat,
)
    requires
        regs_bounded(regs, n),
        all_below(acc, n),
    ensures
        operands_from(pieces, k, acc, regs) matches Ok(qs) ==> all_below(qs, n),
    decreases pieces.len() - k,
{
    if 0 <= k < pieces.len() {
        let t = crate::text::trim(pieces[k]);
        lemma_qubit_ref_below(t, regs, n);
        match qubit_ref_spec(t, regs) {
            Ok(q) => {
                assert(all_below(acc.push(q), n)) by {
                    assert forall|i: int| 0 <= i < acc.push(q).len() implies #[trigger] acc.push(q)[i] < n by {
                        if i < acc.len() {
                            assert(acc.push(q)[i] == acc[i]);
                        }
                    }
                }
                lemma_operands_from_below(pieces, k + 1, acc.push(q), regs, n);
            },
            Err(_) => {},
        }
    }
}

/// An operand list resolves to qubits below `n`.
pub proof fn lemma_operands_below(ops: Seq<char>, regs: Seq<(Seq<char>, Reg)>, n: nat)
    requires
        regs_bounded(regs, n),
    ensures
        operands_spec(ops, regs) matches Ok(qs) ==> all_below(qs, n),
{
    if crate::text::trim(ops).len() > 0 {
        lemma_operands_from_below(crate::text::split_on(ops, ','), 0, Seq::empty(), regs, n);
    }
}

/// `q[i]` or a whole register resolves to qubits below `n`.
pub proof fn lemma_resolve_below(operand: Seq<char>, regs: Seq<(Seq<char>, Reg)>, stmt: Seq<char>, n: nat)
    requires
        regs_bounded(regs, n),
    ensures
        resolve_spec(operand, regs, stmt) matches Ok(qs) ==> all_below(qs, n),
{
    if operand.len() > 0 {
        if operand.contains('[') {
            lemma_operands_below(operand, regs, n);
        } else {
            lemma_lookup_in(regs, operand, n);
        }
    }
}

/// A body statement's qubits are among the call's.
pub proof fn lemma_body_qubits_below(
    pieces: Seq<Seq<char>>,
    k: int,
    acc: Seq<usize>,
    qargs: Seq<Seq<char>>,
    q: Seq<usize>,
    name: Seq<char>,
    s: Seq<char>,
    n: nat,
)
    requires
        all_below(acc, n),
        all_below(q, n),
        qargs.len() == q.len(),
    ensures
        body_qubits_from(pieces, k, acc, qargs, q, name, s) matches Ok(r) ==> all_below(r, n),
    decreases pieces.len() - k,
{
    if 0 <= k < pieces.len() {
        match crate::expr::index_of_name(qargs, pieces[k]) {
            Some(i) => {
                crate::expr::lemma_index_of_name(qargs, pieces[k]);
                let a2 = acc.push(q[i]);
                assert(all_below(a2, n)) by {
                    assert forall|j: int| 0 <= j < a2.len() implies #[trigger] a2[j] < n by {
                        if j < acc.len() {
                            assert(a2[j] == acc[j]);
                        }
                    }
                }
                lemma_body_qubits_below(pieces, k + 1, a2, qargs, q, name, s, n);
            },
            None => {},
        }
    }
}

/// A call on qubits of the register keeps a circuit well formed.
pub proof fn lemma_apply_well_formed(
    c: CircuitV,
    defs: Seq<(Seq<char>, GateDefV)>,
    name: Seq<char>,
    a: Seq<AngleV>,
    q: Seq<usize>,
    budget: nat,
    depth: nat,
    stmt: Seq<char>,
)
    requires
        well_formed(c),
        all_below(q, c.n_qubits as nat),
    ensures
        apply_spec(c, defs, name, a, q, budget, depth, stmt) matches Ok((c2, _)) ==> well_formed(c2)
            && c2.n_qubits == c.n_qubits,
    decreases MAX_GATE_DEPTH - depth, 2nat, 0nat,
{
    match lookup_def(defs, name) {
        Some(def) => lemma_expand_well_formed(c, defs, name, def, a, q, budget, depth, stmt),
        None => match builtin_of(name) {
            Some(b) => if q.len() == shape(b).0 {
                lemma_effect_well_formed(c, b, a, q);
            },
            None => {},
        },
    }
}

/// An expansion on qubits of the register keeps a circuit well formed.
pub proof fn lemma_expand_well_formed(
    c: CircuitV,
    defs: Seq<(Seq<char>, GateDefV)>,
    name: Seq<char>,
    def: GateDefV,
    a: Seq<AngleV>,
    q: Seq<usize>,
    budget: nat,
    depth: nat,
    stmt: Seq<char>,
)
    requires
        well_formed(c),
        all_below(q, c.n_qubits as nat),
    ensures
        expand_spec(c, defs, name, def, a, q, budget, depth, stmt) matches Ok((c2, _)) ==> well_formed(c2)
            && c2.n_qubits == c.n_qubits,
    decreases MAX_GATE_DEPTH - depth, 1nat, 0nat,
{
    if depth < MAX_GATE_DEPTH && def.params.len() == a.len() && def.qargs.len() == q.len() {
        lemma_body_well_formed(c, defs, name, def, a, q, 0, budget, depth);
    }
}

/// A body on qubits of the register keeps a circuit well formed.
pub proof fn lemma_body_well_formed(
    c: CircuitV,
    defs: Seq<(Seq<char>, GateDefV)>,
    name: Seq<char>,
    def: GateDefV,
    a: Seq<AngleV>,
    q: Seq<usize>,
    k: int,
    budget: nat,
    depth: nat,
)
    requires
        well_formed(c),
        all_below(q, c.n_qubits as nat),
        def.qargs.len() == q.len(),
    ensures
        body_spec(c, defs, name, def, a, q, k, budget, depth) matches Ok((c2, _)) ==> well_formed(c2)
            && c2.n_qubits == c.n_qubits,
    decreases MAX_GATE_DEPTH - depth, 0nat, def.body.len() - k,
{
    if 0 <= k < def.body.len() && depth < MAX_GATE_DEPTH {
        let s = def.body[k];
        let (head, ops) = split_head_spec(s);
        let (bname, bparams) = parse_head_spec(head);
        if bname == "barrier"@ {
            lemma_body_well_formed(c, defs, name, def, a, q, k + 1, budget, depth);
        } else {
            match angle_list_spec(bparams, def.params, s) {
                Err(_) => {},
                Ok(ba) => {
                    lemma_body_qubits_below(
                        crate::qasm::trim_nonempty(crate::text::split_on(ops, ',')),
                        0,
                        Seq::empty(),
                        def.qargs,
                        q,
                        name,
                        s,
                        c.n_qubits as nat,
                    );
                    match body_qubits_spec(ops, def.qargs, q, name, s) {
                        Err(_) => {},
                        Ok(bq) => {
                            let sa = substituted(ba, def.params, exprs_v(a));
                            lemma_apply_well_formed(c, defs, bname, sa, bq, budget, depth + 1, s);
                            match apply_spec(c, defs, bname, sa, bq, budget, depth + 1, s) {
                                Ok((c2, b2)) => lemma_body_well_formed(c2, defs, name, def, a, q, k + 1, b2, depth),
                                Err(_) => {},
                            }
                        },
                    }
                },
            }
        }
    }
}

/// A gate statement keeps a circuit well formed.
pub proof fn lemma_gate_well_formed(
    c: CircuitV,
    s: Seq<char>,
    regs: Seq<(Seq<char>, Reg)>,
    defs: Seq<(Seq<char>, GateDefV)>,
    budget: nat,
)
    requires
        well_formed(c),
        regs_bounded(regs, c.n_qubits as nat),
    ensures
        gate_spec(c, s, regs, defs, budget) matches Ok((c2, _)) ==> well_formed(c2) && c2.n_qubits == c.n_qubits,
{
    reveal(gate_spec);
    let (head, ops) = split_head_spec(s);
    let (name, params) = parse_head_spec(head);
    lemma_operands_below(ops, regs, c.n_qubits as nat);
    match operands_spec(ops, regs) {
        Err(_) => {},
        Ok(q) => match angle_list_spec(params, Seq::empty(), s) {
            Err(_) => {},
            Ok(a) => lemma_apply_well_formed(c, defs, name, a, q, budget, 0, s),
        },
    }
}

/// Measurements of qubits into bits of the register keep it well formed.
pub proof fn lemma_measure_into_well_formed(c: CircuitV, qs: Seq<usize>, bs: Seq<usize>)
    requires
        well_formed(c),
        all_below(qs, c.n_qubits as nat),
        all_below(bs, c.n_qubits as nat),
    ensures
        well_formed(sp_measure_into(c, qs, bs)),
        sp_measure_into(c, qs, bs).n_qubits == c.n_qubits,
    decreases qs.len(),
{
    if qs.len() > 0 && bs.len() > 0 {
        assert(all_below(qs.drop_last(), c.n_qubits as nat)) by {
            assert forall|i: int| 0 <= i < qs.drop_last().len() implies #[trigger] qs.drop_last()[i] < c.n_qubits by {
                assert(qs.drop_last()[i] == qs[i]);
            }
        }
        assert(all_below(bs.drop_last(), c.n_qubits as nat)) by {
            assert forall|i: int| 0 <= i < bs.drop_last().len() implies #[trigger] bs.drop_last()[i] < c.n_qubits by {
                assert(bs.drop_last()[i] == bs[i]);
            }
        }
        lemma_measure_into_well_formed(c, qs.drop_last(), bs.drop_last());
        assert(qs[qs.len() - 1] < c.n_qubits);
        assert(bs[bs.len() - 1] < c.n_qubits);
        lemma_push_well_formed(
            sp_measure_into(c, qs.drop_last(), bs.drop_last()),
            OpV::Measure { qubit: qs.last(), clbit: bs.last() },
        );
    }
}

/// Resets of qubits of the register keep it well formed.
pub proof fn lemma_reset_each_well_formed(c: CircuitV, qs: Seq<usize>)
    requires
        well_formed(c),
        all_below(qs, c.n_qubits as nat),
    ensures
        well_formed(sp_reset_each(c, qs)),
        sp_reset_each(c, qs).n_qubits == c.n_qubits,
    decreases qs.len(),
{
    if qs.len() > 0 {
        assert(all_below(qs.drop_last(), c.n_qubits as nat)) by {
            assert forall|i: int| 0 <= i < qs.drop_last().len() implies #[trigger] qs.drop_last()[i] < c.n_qubits by {
                assert(qs.drop_last()[i] == qs[i]);
            }
        }
        lemma_reset_each_well_formed(c, qs.drop_last());
        assert(qs[qs.len() - 1] < c.n_qubits);
        lemma_push_well_formed(sp_reset_each(c, qs.drop_last()), OpV::Reset { qubit: qs.last() });
    }
}

/// A guarded gate keeps a circuit well formed.
pub proof fn lemma_if_well_formed(
    c: CircuitV,
    s: Seq<char>,
    regs: Seq<(Seq<char>, Reg)>,
    cregs: Seq<(Seq<char>, Reg)>,
    defs: Seq<(Seq<char>, GateDefV)>,
    budget: nat,
)
    requires
        well_formed(c),
        regs_bounded(regs, c.n_qubits as nat),
    ensures
        if_spec(c, s, regs, cregs, defs, budget) matches Ok((c2, _)) ==> well_formed(c2) && c2.n_qubits
            == c.n_qubits,
{
    reveal(if_spec);
    let empty = CircuitV { n_qubits: c.n_qubits, ops: Seq::empty() };
    match if_spec(c, s, regs, cregs, defs, budget) {
        Ok((c2, _)) => {
            let r = crate::text::trim(crate::text::strip_prefix(s, "if"@)->0);
            let close = crate::text::first_index(r, ')')->0;
            let body = crate::text::trim(r.skip(close + 1));
            lemma_gate_well_formed(empty, body, regs, defs, budget);
            lemma_gate_gates(empty, body, regs, defs, budget);
            let (lhs, rhs) = crate::text::split_once_pair(r.subrange(1, close), '=', '=')->0;
            let creg = lookup_reg(cregs, crate::text::trim(lhs))->0;
            let v = crate::text::parse_u64_spec(crate::text::trim(rhs))->0;
            let (blk, _) = gate_spec(empty, body, regs, defs, budget)->Ok_0;
            if c2 != c {
                let g = gates_of(blk.ops);
                assert forall|i: int| 0 <= i < g.len() implies gate_in_range(#[trigger] g[i], c.n_qubits as nat) by {
                    assert(gates_only(blk.ops));
                    assert(op_in_range(blk.ops[i], blk.n_qubits as nat));
                }
                lemma_push_well_formed(
                    c,
                    OpV::Conditional { value: crate::qasm::shifted(v as nat, creg.offset as nat) as u64, ops: g },
                );
            }
        },
        Err(_) => {},
    }
}

/// Running statements keeps a circuit well formed.
#[verifier::spinoff_prover]
#[verifier::rlimit(30)]
pub proof fn lemma_run_well_formed(
    stmts: Seq<Seq<char>>,
    k: int,
    regs: Seq<(Seq<char>, Reg)>,
    cregs: Seq<(Seq<char>, Reg)>,
    defs: Seq<(Seq<char>, GateDefV)>,
    c: CircuitV,
    budget: nat,
)
    requires
        well_formed(c),
        regs_bounded(regs, c.n_qubits as nat),
        regs_bounded(cregs, c.n_qubits as nat),
    ensures
        run_from(stmts, k, regs, cregs, defs, c, budget) matches Ok(c2) ==> well_formed(c2) && c2.n_qubits
            == c.n_qubits,
    decreases stmts.len() - k,
{
    if 0 <= k < stmts.len() {
        let s = stmts[k];
        let kw = keyword_of(s);
        let n = c.n_qubits as nat;
        if skipped(kw) {
            lemma_run_well_formed(stmts, k + 1, regs, cregs, defs, c, budget);
        } else if kw == "measure"@ {
            reveal(measure_spec);
            match measure_spec(c, s, regs, cregs) {
                Ok(c2) => {
                    let rest = crate::text::strip_prefix(s, "measure"@)->0;
                    let (source, dest) = crate::text::split_once_pair(rest, '-', '>')->0;
                    lemma_resolve_below(crate::text::trim(source), regs, s, n);
                    lemma_resolve_below(crate::text::trim(dest), cregs, s, n);
                    let qs = resolve_spec(crate::text::trim(source), regs, s)->Ok_0;
                    let bs = resolve_spec(crate::text::trim(dest), cregs, s)->Ok_0;
                    lemma_measure_into_well_formed(c, qs, bs);
                    lemma_run_well_formed(stmts, k + 1, regs, cregs, defs, c2, budget);
                },
                Err(_) => {},
            }
        } else if kw == "reset"@ {
            reveal(reset_spec);
            match reset_spec(c, s, regs) {
                Ok(c2) => {
                    let rest = crate::text::strip_prefix(s, "reset"@)->0;
                    lemma_resolve_below(crate::text::trim(rest), regs, s, n);
                    lemma_reset_each_well_formed(c, resolve_spec(crate::text::trim(rest), regs, s)->Ok_0);
                    lemma_run_well_formed(stmts, k + 1, regs, cregs, defs, c2, budget);
                },
                Err(_) => {},
            }
        } else if kw == "opaque"@ {
        } else if kw == "if"@ {
            lemma_if_well_formed(c, s, regs, cregs, defs, budget);
            match if_spec(c, s, regs, cregs, defs, budget) {
                Ok((c2, b2)) => lemma_run_well_formed(stmts, k + 1, regs, cregs, defs, c2, b2),
                Err(_) => {},
            }
        } else {
            lemma_gate_well_formed(c, s, regs, defs, budget);
            match gate_spec(c, s, regs, defs, budget) {
                Ok((c2, b2)) => lemma_run_well_formed(stmts, k + 1, regs, cregs, defs, c2, b2),
                Err(_) => {},
            }
        }
    }
}

/// The quantum registers are placed within the total they add up to.
pub proof fn lemma_qregs_bounded(stmts: Seq<Seq<char>>, k: int, regs: Seq<(Seq<char>, Reg)>, total: nat)
    requires
        regs_bounded(regs, total),
        total <= crate::qasm::MAX_QUBITS,
    ensures
        qregs_from(stmts, k, regs, total) matches Ok((r, t)) ==> regs_bounded(r, t) && t <= crate::qasm::MAX_QUBITS,
    decreases stmts.len() - k,
{
    if 0 <= k < stmts.len() && keyword_of(stmts[k]) == "qreg"@ {
        match crate::qasm::reg_decl_spec(stmts[k], "qreg"@) {
            Ok((name, size)) => if lookup_reg(regs, name) is None && size <= crate::qasm::MAX_QUBITS && total + size
                <= crate::qasm::MAX_QUBITS {
                let r2 = regs.push((name, Reg { offset: total as usize, size }));
                assert(regs_bounded(r2, (total + size) as nat)) by {
                    assert forall|i: int| 0 <= i < r2.len() implies #[trigger] r2[i].1.offset + r2[i].1.size <= total
                        + size by {
                        if i < regs.len() {
                            assert(r2[i] == regs[i]);
                        }
                    }
                }
                lemma_qregs_bounded(stmts, k + 1, r2, (total + size) as nat);
            },
            Err(_) => {},
        }
    } else if 0 <= k < stmts.len() {
        lemma_qregs_bounded(stmts, k + 1, regs, total);
    }
}

/// The classical registers are placed within the `n` bits.
pub proof fn lemma_cregs_bounded(stmts: Seq<Seq<char>>, k: int, cregs: Seq<(Seq<char>, Reg)>, total: nat, n: nat)
    requires
        regs_bounded(cregs, total),
        total <= n,
    ensures
        cregs_from(stmts, k, cregs, total, n) matches Ok(r) ==> regs_bounded(r, n),
    decreases stmts.len() - k,
{
    if 0 <= k < stmts.len() && keyword_of(stmts[k]) == "creg"@ {
        match crate::qasm::reg_decl_spec(stmts[k], "creg"@) {
            Ok((name, size)) => if lookup_reg(cregs, name) is None && size <= n && total + size <= n {
                let r2 = cregs.push((name, Reg { offset: total as usize, size }));
                assert(regs_bounded(r2, (total + size) as nat)) by {
                    assert forall|i: int| 0 <= i < r2.len() implies #[trigger] r2[i].1.offset + r2[i].1.size <= total
                        + size by {
                        if i < cregs.len() {
                            assert(r2[i] == cregs[i]);
                        }
                    }
                }
                lemma_cregs_bounded(stmts, k + 1, r2, (total + size) as nat, n);
            },
            Err(_) => {},
        }
    } else if 0 <= k < stmts.len() {
        lemma_cregs_bounded(stmts, k + 1, cregs, total, n);
    } else {
        assert forall|i: int| 0 <= i < cregs.len() implies #[trigger] cregs[i].1.offset + cregs[i].1.size <= n by {
            assert(cregs[i].1.offset + cregs[i].1.size <= total);
        }
    }
}

/// Every circuit the OpenQASM importer builds names only qubits and
/// classical bits of its register.
pub proof fn lemma_qasm_well_formed(src: Seq<char>)
    ensures
        qasm_spec(src) matches Ok(c) ==> well_formed(c),
{
    match statements_of(strip_from(src, 0, false)) {
        Err(_) => {},
        Ok(stmts) => {
            lemma_qregs_bounded(stmts, 0, Seq::empty(), 0);
            match qregs_from(stmts, 0, Seq::empty(), 0) {
                Err(_) => {},
                Ok((regs, total)) => if total > 0 {
                    lemma_cregs_bounded(stmts, 0, Seq::empty(), 0, total);
                    match cregs_from(stmts, 0, Seq::empty(), 0, total) {
                        Err(_) => {},
                        Ok(cregs) => match defs_from(stmts, 0, Seq::empty()) {
                            Err(_) => {},
                            Ok(defs) => {
                                let c0 = CircuitV { n_qubits: total as usize, ops: Seq::empty() };
                                lemma_run_well_formed(
                                    stmts,
                                    0,
                                    regs,
                                    cregs,
                                    defs,
                                    c0,
                                    crate::qasm::MAX_EXPANDED_OPS as nat,
                                );
                            },
                        },
                    }
                },
            }
        },
    }
}


/// The qubits of a token run are below the register size.
pub proof fn lemma_qubits_from_below(toks: Seq<Seq<char>>, k: int, acc: Seq<usize>, n: nat)
    requires
        all_below(acc, n),
    ensures
        qubits_from(toks, k, acc, n) matches Ok(qs) ==> all_below(qs, n) && (0 <= k <= toks.len() ==> qs.len()
            == acc.len() + toks.len() - k),
    decreases toks.len() - k,
{
    if 0 <= k < toks.len() {
        match qubit_spec(toks, k, n) {
            Ok(q) => {
                let a2 = acc.push(q);
                assert(all_below(a2, n)) by {
                    assert forall|j: int| 0 <= j < a2.len() implies #[trigger] a2[j] < n by {
                        if j < acc.len() {
                            assert(a2[j] == acc[j]);
                        }
                    }
                }
                lemma_qubits_from_below(toks, k + 1, a2, n);
            },
            Err(_) => {},
        }
    }
}

/// The controls and target of a multi-controlled instruction are below the
/// register size.
pub proof fn lemma_controls_below(toks: Seq<Seq<char>>, start: nat, n: nat)
    ensures
        controls_spec(toks, start, n) matches Ok((cs, t)) ==> all_below(cs, n) && t < n,
{
    lemma_qubits_from_below(toks, start as int, Seq::empty(), n);
    match controls_spec(toks, start, n) {
        Ok((cs, t)) => {
            let qs = qubits_from(toks, start as int, Seq::empty(), n)->Ok_0;
            assert(qs.len() > 0);
            assert(t == qs[qs.len() - 1]);
            assert forall|j: int| 0 <= j < cs.len() implies #[trigger] cs[j] < n by {
                assert(cs[j] == qs[j]);
            }
        },
        Err(_) => {},
    }
}

/// An instruction keeps a circuit well formed.
#[verifier::spinoff_prover]
#[verifier::rlimit(80)]
pub proof fn lemma_instr_well_formed(c: CircuitV, toks: Seq<Seq<char>>, line: nat)
    requires
        well_formed(c),
    ensures
        instr_spec(c, toks, line) matches Ok(c2) ==> well_formed(c2) && c2.n_qubits == c.n_qubits,
    decreases toks.len(),
{
    let n = c.n_qubits as nat;
    if toks.len() > 0 {
        lemma_controls_below(toks, 1, n);
        lemma_controls_below(toks, 4, n);
        let e = CircuitV { n_qubits: c.n_qubits, ops: Seq::empty() };
        if toks.len() >= 3 {
            lemma_instr_well_formed(e, toks.skip(2), line);
            if guardable(toks[2]) {
                assert(toks.skip(2)[0] == toks[2]);
                lemma_instr_gates(e, toks.skip(2), line);
            }
        }
        match instr_spec(c, toks, line) {
            Ok(c2) => {
                assert forall|i: int| 0 <= i < c2.ops.len() implies op_in_range(#[trigger] c2.ops[i], n) by {
                    if i < c.ops.len() {
                        assert(op_in_range(c.ops[i], n));
                    } else if cmd_of(toks[0]) == Some(Cmd::If) {
                        let b = instr_spec(e, toks.skip(2), line)->Ok_0;
                        let g = gates_of(b.ops);
                        assert forall|j: int| 0 <= j < g.len() implies gate_in_range(#[trigger] g[j], n) by {
                            assert(op_in_range(b.ops[j], n));
                        }
                    }
                }
                assert forall|i: int| 0 <= i < c2.ops.len() implies (#[trigger] c2.ops[i] matches OpV::Measure {
                    clbit,
                    ..
                } ==> clbit < c2.n_qubits) by {
                    if i < c.ops.len() {
                        assert(c2.ops[i] == c.ops[i]);
                    }
                }
            },
            Err(_) => {},
        }
    }
}

/// Running lines keeps the circuit well formed.
pub proof fn lemma_lines_well_formed(
    lines: Seq<Seq<char>>,
    k: int,
    circ: Option<CircuitV>,
    sample: Option<SampleSpec>,
)
    requires
        circ matches Some(c) ==> well_formed(c),
    ensures
        lines_from(lines, k, circ, sample) matches Ok((Some(c2), _)) ==> well_formed(c2),
    decreases lines.len() - k,
{
    if 0 <= k < lines.len() {
        let toks = words(before_hash(lines[k]));
        if toks.len() == 0 {
            lemma_lines_well_formed(lines, k + 1, circ, sample);
        } else {
            match circ {
                Some(c) => lemma_instr_well_formed(c, toks, (k + 1) as nat),
                None => {},
            }
            match line_spec(toks, circ, sample, (k + 1) as nat) {
                Ok((c2, s2)) => lemma_lines_well_formed(lines, k + 1, c2, s2),
                Err(_) => {},
            }
        }
    }
}

/// Every circuit the text program parser builds names only qubits and
/// classical bits of its register.
pub proof fn lemma_program_well_formed(src: Seq<char>)
    ensures
        program_spec(src) matches Ok(p) ==> well_formed(p.circuit),
{
    lemma_lines_well_formed(lines_of(src), 0, None, None);
}


// ---------------------------------------------------------------------------
// The expansion budget.
// ---------------------------------------------------------------------------

/// The most operations one built-in gate appends: `rc3x`, by its `qelib1`
/// decomposition.
pub open spec fn builtin_max_ops() -> nat {
    18
}

/// `c2` is `c` with at most `k` gates appended, on the same register.
pub open spec fn appends_gates(c: CircuitV, c2: CircuitV, k: nat) -> bool {
    &&& c2.n_qubits == c.n_qubits
    &&& c.ops.len() <= c2.ops.len() <= c.ops.len() + k
    &&& c2.ops.take(c.ops.len() as int) == c.ops
    &&& forall|i: int| c.ops.len() <= i < c2.ops.len() ==> is_gate(#[trigger] c2.ops[i])
}

/// The number of gates of `ops`, those of conditional blocks included.
pub open spec fn gate_count(ops: Seq<OpV>) -> nat
    decreases ops.len(),
{
    if ops.len() == 0 {
        0
    } else {
        gate_count(ops.drop_last()) + match ops.last() {
            OpV::Gate(_) => 1,
            OpV::Conditional { ops: block, .. } => block.len(),
            _ => 0,
        }
    }
}

/// A built-in gate appends at most `builtin_max_ops()` gates.
proof fn lemma_effect_appends(c: CircuitV, b: Builtin, a: Seq<AngleV>, q: Seq<usize>)
    ensures
        appends_gates(c, effect(c, b, a, q), builtin_max_ops()),
{
    let e = effect(c, b, a, q);
    assert(e.ops.take(c.ops.len() as int) =~= c.ops);
}

/// Appending twice appends the two counts.
proof fn lemma_appends_trans(c: CircuitV, c1: CircuitV, c2: CircuitV, k1: nat, k2: nat)
    requires
        appends_gates(c, c1, k1),
        appends_gates(c1, c2, k2),
    ensures
        appends_gates(c, c2, k1 + k2),
{
    assert(c2.ops.take(c.ops.len() as int) =~= c1.ops.take(c.ops.len() as int)) by {
        assert forall|i: int| 0 <= i < c.ops.len() implies c2.ops[i] == c1.ops[i] by {
            assert(c2.ops.take(c1.ops.len() as int)[i] == c1.ops[i]);
        }
    }
    assert forall|i: int| c.ops.len() <= i < c2.ops.len() implies is_gate(#[trigger] c2.ops[i]) by {
        if i < c1.ops.len() {
            assert(c2.ops.take(c1.ops.len() as int)[i] == c1.ops[i]);
            assert(is_gate(c1.ops[i]));
        }
    }
}

/// A call spends its budget one built-in gate at a time, each appending at
/// most `builtin_max_ops()` gates.
pub proof fn lemma_apply_bounded(
    c: CircuitV,
    defs: Seq<(Seq<char>, GateDefV)>,
    name: Seq<char>,
    a: Seq<AngleV>,
    q: Seq<usize>,
    budget: nat,
    depth: nat,
    stmt: Seq<char>,
)
    ensures
        apply_spec(c, defs, name, a, q, budget, depth, stmt) matches Ok((c2, b2)) ==> b2 <= budget && appends_gates(
            c,
            c2,
            builtin_max_ops() * (budget - b2) as nat,
        ),
    decreases MAX_GATE_DEPTH - depth, 2nat, 0nat,
{
    match lookup_def(defs, name) {
        Some(def) => lemma_expand_bounded(c, defs, name, def, a, q, budget, depth, stmt),
        None => if budget > 0 {
            match builtin_of(name) {
                Some(b) => {
                    lemma_effect_appends(c, b, a, q);
                },
                None => {},
            }
        },
    }
}

/// An expansion spends its budget as its body's calls do.
pub proof fn lemma_expand_bounded(
    c: CircuitV,
    defs: Seq<(Seq<char>, GateDefV)>,
    name: Seq<char>,
    def: GateDefV,
    a: Seq<AngleV>,
    q: Seq<usize>,
    budget: nat,
    depth: nat,
    stmt: Seq<char>,
)
    ensures
        expand_spec(c, defs, name, def, a, q, budget, depth, stmt) matches Ok((c2, b2)) ==> b2 <= budget
            && appends_gates(c, c2, builtin_max_ops() * (budget - b2) as nat),
    decreases MAX_GATE_DEPTH - depth, 1nat, 0nat,
{
    if depth < MAX_GATE_DEPTH && def.params.len() == a.len() && def.qargs.len() == q.len() {
        lemma_body_bounded(c, defs, name, def, a, q, 0, budget, depth);
    }
}

/// A body spends its budget as its calls do, one after another.
pub proof fn lemma_body_bounded(
    c: CircuitV,
    defs: Seq<(Seq<char>, GateDefV)>,
    name: Seq<char>,
    def: GateDefV,
    a: Seq<AngleV>,
    q: Seq<usize>,
    k: int,
    budget: nat,
    depth: nat,
)
    ensures
        body_spec(c, defs, name, def, a, q, k, budget, depth) matches Ok((c2, b2)) ==> b2 <= budget
            && appends_gates(c, c2, builtin_max_ops() * (budget - b2) as nat),
    decreases MAX_GATE_DEPTH - depth, 0nat, def.body.len() - k,
{
    if 0 <= k < def.body.len() && depth < MAX_GATE_DEPTH {
        let s = def.body[k];
        let (head, ops) = split_head_spec(s);
        let (bname, bparams) = parse_head_spec(head);
        if bname == "barrier"@ {
            lemma_body_bounded(c, defs, name, def, a, q, k + 1, budget, depth);
        } else {
            match angle_list_spec(bparams, def.params, s) {
                Err(_) => {},
                Ok(ba) => match body_qubits_spec(ops, def.qargs, q, name, s) {
                    Err(_) => {},
                    Ok(bq) => {
                        let sa = substituted(ba, def.params, exprs_v(a));
                        lemma_apply_bounded(c, defs, bname, sa, bq, budget, depth + 1, s);
                        match apply_spec(c, defs, bname, sa, bq, budget, depth + 1, s) {
                            Ok((c2, b2)) => {
                                lemma_body_bounded(c2, defs, name, def, a, q, k + 1, b2, depth);
                                match body_spec(c2, defs, name, def, a, q, k + 1, b2, depth) {
                                    Ok((c3, b3)) => {
                                        lemma_appends_trans(
                                            c,
                                            c2,
                                            c3,
                                            builtin_max_ops() * (budget - b2) as nat,
                                            builtin_max_ops() * (b2 - b3) as nat,
                                        );
                                    },
                                    Err(_) => {},
                                }
                            },
                            Err(_) => {},
                        }
                    },
                },
            }
        }
    } else if k < 0 || k >= def.body.len() {
        assert(c.ops.take(c.ops.len() as int) =~= c.ops);
    }
}

/// A gate statement spends its budget as its call does.
pub proof fn lemma_gate_bounded(
    c: CircuitV,
    s: Seq<char>,
    regs: Seq<(Seq<char>, Reg)>,
    defs: Seq<(Seq<char>, GateDefV)>,
    budget: nat,
)
    ensures
        gate_spec(c, s, regs, defs, budget) matches Ok((c2, b2)) ==> b2 <= budget && appends_gates(
            c,
            c2,
            builtin_max_ops() * (budget - b2) as nat,
        ),
{
    reveal(gate_spec);
    let (head, ops) = split_head_spec(s);
    let (name, params) = parse_head_spec(head);
    match operands_spec(ops, regs) {
        Err(_) => {},
        Ok(q) => match angle_list_spec(params, Seq::empty(), s) {
            Err(_) => {},
            Ok(a) => lemma_apply_bounded(c, defs, name, a, q, budget, 0, s),
        },
    }
}

/// Gates appended count one each.
proof fn lemma_gate_count_appended(c: CircuitV, c2: CircuitV, k: nat)
    requires
        appends_gates(c, c2, k),
    ensures
        gate_count(c2.ops) == gate_count(c.ops) + (c2.ops.len() - c.ops.len()),
    decreases c2.ops.len() - c.ops.len(),
{
    if c2.ops.len() > c.ops.len() {
        let c1 = CircuitV { n_qubits: c2.n_qubits, ops: c2.ops.drop_last() };
        assert(c1.ops.take(c.ops.len() as int) =~= c2.ops.take(c.ops.len() as int));
        assert forall|i: int| c.ops.len() <= i < c1.ops.len() implies is_gate(#[trigger] c1.ops[i]) by {
            assert(c1.ops[i] == c2.ops[i]);
        }
        lemma_gate_count_appended(c, c1, k);
        assert(is_gate(c2.ops[c2.ops.len() - 1]));
    } else {
        assert(c2.ops =~= c.ops);
    }
}

/// Measurements add no gate.
proof fn lemma_measure_count(c: CircuitV, qs: Seq<usize>, bs: Seq<usize>)
    ensures
        gate_count(sp_measure_into(c, qs, bs).ops) == gate_count(c.ops),
    decreases qs.len(),
{
    if qs.len() > 0 && bs.len() > 0 {
        lemma_measure_count(c, qs.drop_last(), bs.drop_last());
        let m = sp_measure_into(c, qs, bs);
        assert(m.ops.drop_last() =~= sp_measure_into(c, qs.drop_last(), bs.drop_last()).ops);
    }
}

/// Resets add no gate.
proof fn lemma_reset_count(c: CircuitV, qs: Seq<usize>)
    ensures
        gate_count(sp_reset_each(c, qs).ops) == gate_count(c.ops),
    decreases qs.len(),
{
    if qs.len() > 0 {
        lemma_reset_count(c, qs.drop_last());
        let r = sp_reset_each(c, qs);
        assert(r.ops.drop_last() =~= sp_reset_each(c, qs.drop_last()).ops);
    }
}

/// A guarded gate statement adds the gates of its call, or nothing.
proof fn lemma_if_bounded(
    c: CircuitV,
    s: Seq<char>,
    regs: Seq<(Seq<char>, Reg)>,
    cregs: Seq<(Seq<char>, Reg)>,
    defs: Seq<(Seq<char>, GateDefV)>,
    budget: nat,
)
    ensures
        if_spec(c, s, regs, cregs, defs, budget) matches Ok((c2, b2)) ==> b2 <= budget && gate_count(c2.ops)
            <= gate_count(c.ops) + builtin_max_ops() * (budget - b2),
{
    reveal(if_spec);
    let empty = CircuitV { n_qubits: c.n_qubits, ops: Seq::empty() };
    match if_spec(c, s, regs, cregs, defs, budget) {
        Ok((c2, b2)) => {
            let r = trim(crate::text::strip_prefix(s, "if"@)->0);
            let close = crate::text::first_index(r, ')')->0;
            let body = trim(r.skip(close + 1));
            lemma_gate_bounded(empty, body, regs, defs, budget);
            let (blk, bb) = gate_spec(empty, body, regs, defs, budget)->Ok_0;
            assert(bb == b2);
            if c2 != c {
                let (lhs, rhs) = crate::text::split_once_pair(r.subrange(1, close), '=', '=')->0;
                let creg = lookup_reg(cregs, trim(lhs))->0;
                let v = crate::text::parse_u64_spec(trim(rhs))->0;
                assert(c2 == guarded(c, v, creg, blk.ops));
                assert(c2.ops.drop_last() =~= c.ops);
                assert(gates_of(blk.ops).len() == blk.ops.len());
            }
        },
        Err(_) => {},
    }
}

/// Running statements adds at most `builtin_max_ops()` gates per unit of
/// the budget.
pub proof fn lemma_run_bounded(
    stmts: Seq<Seq<char>>,
    k: int,
    regs: Seq<(Seq<char>, Reg)>,
    cregs: Seq<(Seq<char>, Reg)>,
    defs: Seq<(Seq<char>, GateDefV)>,
    c: CircuitV,
    budget: nat,
)
    ensures
        run_from(stmts, k, regs, cregs, defs, c, budget) matches Ok(c2) ==> gate_count(c2.ops) <= gate_count(c.ops)
            + builtin_max_ops() * budget,
    decreases stmts.len() - k,
{
    if 0 <= k < stmts.len() {
        let s = stmts[k];
        let kw = keyword_of(s);
        if skipped(kw) {
            lemma_run_bounded(stmts, k + 1, regs, cregs, defs, c, budget);
        } else if kw == "measure"@ {
            reveal(measure_spec);
            match measure_spec(c, s, regs, cregs) {
                Ok(c2) => {
                    let rest = crate::text::strip_prefix(s, "measure"@)->0;
                    let (source, dest) = crate::text::split_once_pair(rest, '-', '>')->0;
                    let qs = resolve_spec(trim(source), regs, s)->Ok_0;
                    let bs = resolve_spec(trim(dest), cregs, s)->Ok_0;
                    lemma_measure_count(c, qs, bs);
                    lemma_run_bounded(stmts, k + 1, regs, cregs, defs, c2, budget);
                },
                Err(_) => {},
            }
        } else if kw == "reset"@ {
            reveal(reset_spec);
            match reset_spec(c, s, regs) {
                Ok(c2) => {
                    let rest = crate::text::strip_prefix(s, "reset"@)->0;
                    lemma_reset_count(c, resolve_spec(trim(rest), regs, s)->Ok_0);
                    lemma_run_bounded(stmts, k + 1, regs, cregs, defs, c2, budget);
                },
                Err(_) => {},
            }
        } else if kw == "opaque"@ {
        } else if kw == "if"@ {
            lemma_if_bounded(c, s, regs, cregs, defs, budget);
            match if_spec(c, s, regs, cregs, defs, budget) {
                Ok((c2, b2)) => lemma_run_bounded(stmts, k + 1, regs, cregs, defs, c2, b2),
                Err(_) => {},
            }
        } else {
            lemma_gate_bounded(c, s, regs, defs, budget);
            match gate_spec(c, s, regs, defs, budget) {
                Ok((c2, b2)) => {
                    lemma_gate_count_appended(c, c2, builtin_max_ops() * (budget - b2) as nat);
                    lemma_run_bounded(stmts, k + 1, regs, cregs, defs, c2, b2);
                },
                Err(_) => {},
            }
        }
    }
}

/// However a program nests its gate declarations, what the importer builds
/// holds at most `builtin_max_ops()` gates for each of the
/// `MAX_EXPANDED_OPS` built-in gates it may apply: the budget, not the size
/// of the input, bounds the circuit.
pub proof fn lemma_import_bounded(src: Seq<char>)
    ensures
        qasm_spec(src) matches Ok(c) ==> gate_count(c.ops) <= builtin_max_ops() * MAX_EXPANDED_OPS,
{
    match statements_of(strip_from(src, 0, false)) {
        Ok(stmts) => match qregs_from(stmts, 0, Seq::empty(), 0) {
            Ok((regs, total)) => match cregs_from(stmts, 0, Seq::empty(), 0, total) {
                Ok(cregs) => match defs_from(stmts, 0, Seq::empty()) {
                    Ok(defs) => {
                        let c0 = CircuitV { n_qubits: total as usize, ops: Seq::empty() };
                        lemma_run_bounded(stmts, 0, regs, cregs, defs, c0, MAX_EXPANDED_OPS as nat);
                    },
                    Err(_) => {},
                },
                Err(_) => {},
            },
            Err(_) => {},
        },
        Err(_) => {},
    }
}

// ---------------------------------------------------------------------------
// Export.
// ---------------------------------------------------------------------------

/// A statement that is `x`, `cx` or `ccx`: a Toffoli or smaller.
pub open spec fn toffoli_level(l: QasmLineV) -> bool {
    l matches QasmLineV::Gate { name, params, .. } && params.len() == 0 && (name == "x"@ || name == "cx"@ || name
        == "ccx"@)
}

/// The free qubit found is one the operation leaves untouched.
pub proof fn lemma_free_from_sound(n: nat, cs: Seq<usize>, t: usize, q: nat)
    requires
        n <= usize::MAX,
    ensures
        free_from(n, cs, t, q) matches Some(b) ==> b < n && b != t && !cs.contains(b),
    decreases n - q,
{
    if q < n && !(q != t && !cs.contains(q as usize)) {
        lemma_free_from_sound(n, cs, t, q + 1);
    }
}

/// A free qubit is found whenever one exists at or after `q`.
pub proof fn lemma_free_from_found(n: nat, cs: Seq<usize>, t: usize, q: nat, w: usize)
    requires
        n <= usize::MAX,
        q <= w < n,
        w != t,
        !cs.contains(w),
    ensures
        free_from(n, cs, t, q) is Some,
    decreases w - q,
{
    if !(q != t && !cs.contains(q as usize)) {
        lemma_free_from_found(n, cs, t, q + 1, w);
    }
}

/// Whether every qubit of `qs` is set in the basis state `x`.
pub open spec fn all_set(x: Seq<bool>, qs: Seq<usize>) -> bool {
    forall|i: int| 0 <= i < qs.len() ==> x[#[trigger] qs[i] as int]
}

/// The basis state `x` after one Toffoli-level statement: its last qubit
/// flipped when every other qubit it names is set. Any other statement is
/// left out of this reading and changes nothing.
pub open spec fn flip_step(l: QasmLineV, x: Seq<bool>) -> Seq<bool> {
    match l {
        QasmLineV::Gate { qubits, .. } => if qubits.len() > 0 && all_set(x, qubits.drop_last()) {
            x.update(qubits.last() as int, !x[qubits.last() as int])
        } else {
            x
        },
        _ => x,
    }
}

/// The basis state `x` after the statements `lines`, in order.
pub open spec fn run_bits(lines: Seq<QasmLineV>, x: Seq<bool>) -> Seq<bool>
    decreases lines.len(),
{
    if lines.len() == 0 {
        x
    } else {
        run_bits(lines.drop_first(), flip_step(lines[0], x))
    }
}

/// Running two lists of statements is running one after the other.
pub proof fn lemma_run_bits_append(a: Seq<QasmLineV>, b: Seq<QasmLineV>, x: Seq<bool>)
    ensures
        run_bits(a + b, x) == run_bits(b, run_bits(a, x)),
    decreases a.len(),
{
    if a.len() > 0 {
        assert((a + b).drop_first() =~= a.drop_first() + b);
        assert((a + b)[0] == a[0]);
        lemma_run_bits_append(a.drop_first(), b, flip_step(a[0], x));
    } else {
        assert(a + b =~= b);
    }
}

/// Changing a qubit outside `qs` leaves whether all of `qs` are set alone.
pub proof fn lemma_all_set_update(x: Seq<bool>, qs: Seq<usize>, j: int, v: bool)
    requires
        0 <= j < x.len(),
        all_below(qs, x.len()),
        !qs.contains(j as usize),
    ensures
        all_set(x.update(j, v), qs) == all_set(x, qs),
{
    assert forall|i: int| 0 <= i < qs.len() implies x.update(j, v)[#[trigger] qs[i] as int] == x[qs[i] as int] by {
        assert(qs[i] != j);
    }
}

/// A multi-controlled X with at most two controls is one `x`, `cx` or `ccx`,
/// which flips the target exactly when every control is set.
proof fn lemma_mcx_small(n: nat, controls: Seq<usize>, target: usize, x: Seq<bool>)
    requires
        controls.len() <= 2,
        x.len() == n,
        target < n,
    ensures
        forall|i: int| 0 <= i < mcx_plan(n, controls, target).len() ==> toffoli_level(
            #[trigger] mcx_plan(n, controls, target)[i],
        ),
        run_bits(mcx_plan(n, controls, target), x) == x.update(
            target as int,
            x[target as int] != all_set(x, controls),
        ),
{
    let p = mcx_plan(n, controls, target);
    let qubits = controls.push(target);
    if controls.len() == 0 {
        assert(qubits =~= seq![target]);
        assert(p == seq![QasmLineV::Gate { name: "x"@, params: Seq::empty(), qubits }]);
    } else if controls.len() == 1 {
        assert(qubits =~= seq![controls[0], target]);
        assert(p == seq![QasmLineV::Gate { name: "cx"@, params: Seq::empty(), qubits }]);
    } else {
        assert(qubits =~= seq![controls[0], controls[1], target]);
        assert(p == seq![QasmLineV::Gate { name: "ccx"@, params: Seq::empty(), qubits }]);
    }
    assert(qubits.drop_last() =~= controls);
    let y = flip_step(p[0], x);
    assert(p.drop_first() =~= Seq::<QasmLineV>::empty());
    assert(run_bits(Seq::<QasmLineV>::empty(), y) == y);
    assert(run_bits(p, x) == y);
    if !all_set(x, controls) {
        assert(x.update(target as int, x[target as int]) =~= x);
    }
}

/// The four passes of the borrowed-qubit decomposition, on one basis state:
/// the first half of the controls toggles the borrowed qubit `b`, the second
/// half with `b` toggles the target, and the pair once more; the target ends
/// flipped by the conjunction of both halves and `b` ends as it began.
proof fn lemma_borrowed_passes(
    x: Seq<bool>,
    lo: Seq<usize>,
    rest: Seq<usize>,
    b: usize,
    t: usize,
    x1: Seq<bool>,
    x2: Seq<bool>,
    x3: Seq<bool>,
    x4: Seq<bool>,
)
    requires
        b < x.len(),
        t < x.len(),
        b != t,
        all_below(lo, x.len()),
        all_below(rest, x.len()),
        !lo.contains(b),
        !lo.contains(t),
        !rest.contains(b),
        !rest.contains(t),
        x1 == x.update(b as int, x[b as int] != all_set(x, lo)),
        x2 == x1.update(t as int, x1[t as int] != all_set(x1, rest.push(b))),
        x3 == x2.update(b as int, x2[b as int] != all_set(x2, lo)),
        x4 == x3.update(t as int, x3[t as int] != all_set(x3, rest.push(b))),
    ensures
        x4 == x.update(t as int, x[t as int] != all_set(x, lo + rest)),
{
    let a = all_set(x, lo);
    let bb = all_set(x, rest);
    lemma_all_set_update(x, rest, b as int, x[b as int] != a);
    assert(all_set(x1, rest.push(b)) == (bb && x1[b as int])) by {
        if bb && x1[b as int] {
            assert forall|i: int| 0 <= i < rest.push(b).len() implies x1[#[trigger] rest.push(b)[i] as int] by {
                if i < rest.len() {
                    assert(rest.push(b)[i] == rest[i]);
                }
            }
        }
        if all_set(x1, rest.push(b)) {
            assert(rest.push(b)[rest.len() as int] == b);
            assert forall|i: int| 0 <= i < rest.len() implies x1[#[trigger] rest[i] as int] by {
                assert(rest.push(b)[i] == rest[i]);
            }
        }
    }
    lemma_all_set_update(x, lo, b as int, x[b as int] != a);
    lemma_all_set_update(x1, lo, t as int, x1[t as int] != (bb && x1[b as int]));
    assert(all_set(x2, lo) == a);
    assert(x3[b as int] == x[b as int]);
    lemma_all_set_update(x1, rest, t as int, x1[t as int] != (bb && x1[b as int]));
    lemma_all_set_update(x2, rest, b as int, x2[b as int] != a);
    assert(all_set(x3, rest) == bb);
    assert(all_set(x3, rest.push(b)) == (bb && x[b as int])) by {
        if bb && x3[b as int] {
            assert forall|i: int| 0 <= i < rest.push(b).len() implies x3[#[trigger] rest.push(b)[i] as int] by {
                if i < rest.len() {
                    assert(rest.push(b)[i] == rest[i]);
                }
            }
        }
        if all_set(x3, rest.push(b)) {
            assert(rest.push(b)[rest.len() as int] == b);
            assert forall|i: int| 0 <= i < rest.len() implies x3[#[trigger] rest[i] as int] by {
                assert(rest.push(b)[i] == rest[i]);
            }
        }
    }
    assert(all_set(x, lo + rest) == (a && bb)) by {
        let cs = lo + rest;
        if a && bb {
            assert forall|i: int| 0 <= i < cs.len() implies x[#[trigger] cs[i] as int] by {
                if i < lo.len() {
                    assert(cs[i] == lo[i]);
                } else {
                    assert(cs[i] == rest[i - lo.len()]);
                }
            }
        }
        if all_set(x, cs) {
            assert forall|i: int| 0 <= i < lo.len() implies x[#[trigger] lo[i] as int] by {
                assert(cs[i] == lo[i]);
            }
            assert forall|i: int| 0 <= i < rest.len() implies x[#[trigger] rest[i] as int] by {
                assert(cs[lo.len() + i] == rest[i]);
            }
        }
    }
    assert(x4 =~= x.update(t as int, x[t as int] != (a && bb)));
}

/// With a qubit to borrow, a multi-controlled X on distinct qubits of the
/// register decomposes into Toffolis, CNOTs and X alone, the borrowed-qubit
/// recursion never needing the square-root form; and on every basis state
/// that network flips the target exactly when every control is set, leaving
/// every other qubit, the borrowed one included, as it was found.
pub proof fn lemma_mcx_with_spare_qubit(n: nat, controls: Seq<usize>, target: usize, x: Seq<bool>)
    requires
        n <= usize::MAX,
        all_below(controls, n),
        target < n,
        crate::qasm::distinct(controls),
        !controls.contains(target),
        controls.len() <= 2 || free_from(n, controls, target, 0) is Some,
        x.len() == n,
    ensures
        forall|i: int| 0 <= i < mcx_plan(n, controls, target).len() ==> toffoli_level(
            #[trigger] mcx_plan(n, controls, target)[i],
        ),
        run_bits(mcx_plan(n, controls, target), x) == x.update(
            target as int,
            x[target as int] != all_set(x, controls),
        ),
    decreases controls.len(),
{
    if controls.len() <= 2 {
        lemma_mcx_small(n, controls, target, x);
    } else {
        let b = free_from(n, controls, target, 0)->0;
        lemma_free_from_sound(n, controls, target, 0);
        let half = (controls.len() + 1) / 2;
        let lo = controls.take(half as int);
        let rest = controls.skip(half as int);
        let hi = rest.push(b);
        assert(controls =~= lo + rest);
        assert forall|i: int| 0 <= i < lo.len() implies #[trigger] lo[i] < n by {
            assert(lo[i] == controls[i]);
        }
        assert forall|i: int| 0 <= i < rest.len() implies #[trigger] rest[i] < n by {
            assert(rest[i] == controls[half + i]);
        }
        assert forall|i: int, j: int| 0 <= i < j < lo.len() implies lo[i] != lo[j] by {
            assert(lo[i] == controls[i] && lo[j] == controls[j]);
        }
        assert(!lo.contains(b)) by {
            if lo.contains(b) {
                let i = choose|i: int| 0 <= i < lo.len() && lo[i] == b;
                assert(controls[i] == b);
            }
        }
        assert(!lo.contains(target)) by {
            if lo.contains(target) {
                let i = choose|i: int| 0 <= i < lo.len() && lo[i] == target;
                assert(controls[i] == target);
            }
        }
        assert(!rest.contains(b)) by {
            if rest.contains(b) {
                let i = choose|i: int| 0 <= i < rest.len() && rest[i] == b;
                assert(controls[half + i] == b);
            }
        }
        assert(!rest.contains(target)) by {
            if rest.contains(target) {
                let i = choose|i: int| 0 <= i < rest.len() && rest[i] == target;
                assert(controls[half + i] == target);
            }
        }
        if lo.len() > 2 {
            lemma_free_from_found(n, lo, b, 0, target);
        }
        assert forall|i: int| 0 <= i < hi.len() implies #[trigger] hi[i] < n by {
            if i < hi.len() - 1 {
                assert(hi[i] == controls[half + i]);
            }
        }
        assert forall|i: int, j: int| 0 <= i < j < hi.len() implies hi[i] != hi[j] by {
            if j < hi.len() - 1 {
                assert(hi[i] == controls[half + i] && hi[j] == controls[half + j]);
            } else {
                assert(hi[i] == controls[half + i]);
                assert(controls.contains(hi[i]));
            }
        }
        assert(!hi.contains(target)) by {
            if hi.contains(target) {
                let i = choose|i: int| 0 <= i < hi.len() && hi[i] == target;
                if i < hi.len() - 1 {
                    assert(controls[half + i] == target);
                }
            }
        }
        if hi.len() > 2 {
            let w = controls[0];
            assert(w < n);
            assert(w != target);
            assert(!hi.contains(w)) by {
                if hi.contains(w) {
                    let i = choose|i: int| 0 <= i < hi.len() && hi[i] == w;
                    if i < hi.len() - 1 {
                        assert(controls[half + i] == controls[0]);
                    } else {
                        assert(controls.contains(w));
                    }
                }
            }
            lemma_free_from_found(n, hi, target, 0, w);
        }
        let p1 = mcx_plan(n, lo, b);
        let p2 = mcx_plan(n, hi, target);
        let once = p1 + p2;
        assert(mcx_plan(n, controls, target) == once + once);
        // The four passes, one basis state at a time.
        lemma_mcx_with_spare_qubit(n, lo, b, x);
        let x1 = run_bits(p1, x);
        lemma_mcx_with_spare_qubit(n, hi, target, x1);
        let x2 = run_bits(p2, x1);
        lemma_mcx_with_spare_qubit(n, lo, b, x2);
        let x3 = run_bits(p1, x2);
        lemma_mcx_with_spare_qubit(n, hi, target, x3);
        lemma_run_bits_append(p1, p2, x);
        lemma_run_bits_append(p1, p2, x2);
        lemma_run_bits_append(once, once, x);
        lemma_borrowed_passes(x, lo, rest, b, target, x1, x2, x3, run_bits(p2, x3));
        assert forall|i: int| 0 <= i < once.len() implies toffoli_level(#[trigger] once[i]) by {
            if i < p1.len() {
                assert(once[i] == p1[i]);
            } else {
                assert(once[i] == p2[i - p1.len()]);
            }
        }
        assert forall|i: int| 0 <= i < (once + once).len() implies toffoli_level(#[trigger] (once + once)[i]) by {
            if i < once.len() {
                assert((once + once)[i] == once[i]);
            } else {
                assert((once + once)[i] == once[i - once.len()]);
            }
        }
    }
}

/// The square roots of X counted in a gate: one for `sx`, one taken back
/// for `sxdg`, none for any other gate.
pub open spec fn turn_of(g: GateV) -> int {
    match g {
        GateV::SX => 1,
        GateV::SXdg => -1,
        _ => 0,
    }
}

/// The square roots of X one statement applies to its target on the basis
/// state `x`: a controlled or multi-controlled gate counts its turns when its
/// controls are set; a Toffoli-level statement, or any other, counts none.
pub open spec fn root_turns(l: QasmLineV, x: Seq<bool>) -> int {
    match l {
        QasmLineV::ControlledU { gate, control, .. } => if x[control as int] {
            turn_of(gate)
        } else {
            0
        },
        QasmLineV::MultiU { gate, controls, .. } => if all_set(x, controls) {
            turn_of(gate)
        } else {
            0
        },
        _ => 0,
    }
}

/// The square roots of X the statements `lines` apply, in order, starting
/// from the basis state `x`.
pub open spec fn run_turns(lines: Seq<QasmLineV>, x: Seq<bool>) -> int
    decreases lines.len(),
{
    if lines.len() == 0 {
        0
    } else {
        root_turns(lines[0], x) + run_turns(lines.drop_first(), flip_step(lines[0], x))
    }
}

/// Counting over two lists of statements counts the first, then the second
/// from where the first left the basis state.
proof fn lemma_run_turns_append(a: Seq<QasmLineV>, b: Seq<QasmLineV>, x: Seq<bool>)
    ensures
        run_turns(a + b, x) == run_turns(a, x) + run_turns(b, run_bits(a, x)),
    decreases a.len(),
{
    if a.len() > 0 {
        assert((a + b).drop_first() =~= a.drop_first() + b);
        assert((a + b)[0] == a[0]);
        lemma_run_turns_append(a.drop_first(), b, flip_step(a[0], x));
    } else {
        assert(a + b =~= b);
    }
}

/// Toffoli-level statements apply no square root of X.
proof fn lemma_toffoli_no_turns(lines: Seq<QasmLineV>, x: Seq<bool>)
    requires
        forall|i: int| 0 <= i < lines.len() ==> toffoli_level(#[trigger] lines[i]),
    ensures
        run_turns(lines, x) == 0,
    decreases lines.len(),
{
    if lines.len() > 0 {
        assert(toffoli_level(lines[0]));
        assert forall|i: int| 0 <= i < lines.drop_first().len() implies toffoli_level(
            #[trigger] lines.drop_first()[i],
        ) by {
            assert(lines.drop_first()[i] == lines[i + 1]);
        }
        lemma_toffoli_no_turns(lines.drop_first(), flip_step(lines[0], x));
    }
}

/// A statement on the target alone leaves the basis state's bits as they
/// were and counts its turns.
proof fn lemma_one_root(l: QasmLineV, x: Seq<bool>)
    requires
        l is ControlledU || l is MultiU,
    ensures
        run_bits(seq![l], x) == x,
        run_turns(seq![l], x) == root_turns(l, x),
{
    let e = Seq::<QasmLineV>::empty();
    assert(seq![l].drop_first() =~= e);
    assert(seq![l][0] == l);
    assert(flip_step(l, x) == x);
    assert(run_bits(e, x) == x);
    assert(run_turns(e, x) == 0);
}

/// With no qubit to spare, a multi-controlled X on three or more controls
/// takes the square-root form `V V = X`, `V` being `sx`: a `V` controlled by
/// the last control, the rest's multi-controlled X onto that control, a
/// controlled `V†`, the same X again, and a `V` controlled by the rest. Each
/// inner network is Toffoli-level and, on every basis state, flips the last
/// control exactly when the rest are set and leaves every other qubit, the
/// target included, as it was found; so on every basis state the statements
/// restore every qubit, and the roots of X they apply to the target add up
/// to two, one whole X, exactly when every control is set, and to none
/// otherwise, whatever the target's own bit.
pub proof fn lemma_mcx_without_spare_qubit(n: nat, controls: Seq<usize>, target: usize, x: Seq<bool>)
    requires
        n <= usize::MAX,
        all_below(controls, n),
        target < n,
        crate::qasm::distinct(controls),
        !controls.contains(target),
        controls.len() >= 3,
        free_from(n, controls, target, 0) is None,
        x.len() == n,
    ensures
        ({
            let last = controls.last();
            let rest = controls.drop_last();
            let m = mcx_plan(n, rest, last);
            &&& mcx_plan(n, controls, target) == seq![
                QasmLineV::ControlledU { gate: GateV::SX, control: last, target },
            ] + m + seq![QasmLineV::ControlledU { gate: GateV::SXdg, control: last, target }] + m + seq![
                QasmLineV::MultiU { gate: GateV::SX, controls: rest, target },
            ]
            &&& forall|i: int| 0 <= i < m.len() ==> toffoli_level(#[trigger] m[i])
            &&& run_bits(m, x) == x.update(last as int, x[last as int] != all_set(x, rest))
        }),
        run_bits(mcx_plan(n, controls, target), x) == x,
        run_turns(mcx_plan(n, controls, target), x) == if all_set(x, controls) {
            2int
        } else {
            0int
        },
{
    let last = controls.last();
    let rest = controls.drop_last();
    let m = mcx_plan(n, rest, last);
    let l1 = QasmLineV::ControlledU { gate: GateV::SX, control: last, target };
    let l2 = QasmLineV::ControlledU { gate: GateV::SXdg, control: last, target };
    let l3 = QasmLineV::MultiU { gate: GateV::SX, controls: rest, target };
    let plan = mcx_plan(n, controls, target);
    assert(plan == seq![l1] + m + seq![l2] + m + seq![l3]);
    let k = controls.len() - 1;
    assert(last == controls[k]);
    assert(last < n);
    assert(last != target);
    assert forall|i: int| 0 <= i < rest.len() implies #[trigger] rest[i] < n by {
        assert(rest[i] == controls[i]);
    }
    assert forall|i: int, j: int| 0 <= i < j < rest.len() implies rest[i] != rest[j] by {
        assert(rest[i] == controls[i] && rest[j] == controls[j]);
    }
    assert(!rest.contains(last)) by {
        if rest.contains(last) {
            let i = choose|i: int| 0 <= i < rest.len() && rest[i] == last;
            assert(controls[i] == controls[k]);
        }
    }
    assert(!rest.contains(target)) by {
        if rest.contains(target) {
            let i = choose|i: int| 0 <= i < rest.len() && rest[i] == target;
            assert(controls[i] == target);
        }
    }
    if rest.len() > 2 {
        lemma_free_from_found(n, rest, last, 0, target);
    }
    let a = all_set(x, rest);
    lemma_mcx_with_spare_qubit(n, rest, last, x);
    let x1 = run_bits(m, x);
    assert(x1 == x.update(last as int, x[last as int] != a));
    lemma_all_set_update(x, rest, last as int, x[last as int] != a);
    lemma_mcx_with_spare_qubit(n, rest, last, x1);
    assert(run_bits(m, x1) =~= x);
    assert(all_set(x, controls) == (a && x[last as int])) by {
        if a && x[last as int] {
            assert forall|i: int| 0 <= i < controls.len() implies x[#[trigger] controls[i] as int] by {
                if i < k {
                    assert(controls[i] == rest[i]);
                }
            }
        }
        if all_set(x, controls) {
            assert(x[controls[k] as int]);
            assert forall|i: int| 0 <= i < rest.len() implies x[#[trigger] rest[i] as int] by {
                assert(rest[i] == controls[i]);
            }
        }
    }
    // The pieces, one after another.
    lemma_one_root(l1, x);
    lemma_one_root(l2, x1);
    lemma_one_root(l3, x);
    lemma_toffoli_no_turns(m, x);
    lemma_toffoli_no_turns(m, x1);
    let p1 = seq![l1] + m;
    let p2 = p1 + seq![l2];
    let p3 = p2 + m;
    lemma_run_bits_append(seq![l1], m, x);
    lemma_run_turns_append(seq![l1], m, x);
    lemma_run_bits_append(p1, seq![l2], x);
    lemma_run_turns_append(p1, seq![l2], x);
    lemma_run_bits_append(p2, m, x);
    lemma_run_turns_append(p2, m, x);
    lemma_run_bits_append(p3, seq![l3], x);
    lemma_run_turns_append(p3, seq![l3], x);
    assert(run_bits(p3, x) == x);
}

/// Every qubit a statement names is below `n`; a statement written out in
/// full names the qubits of the operation it came from.
pub open spec fn line_in_register(l: QasmLineV, n: nat) -> bool {
    match l {
        QasmLineV::Text(_) => true,
        QasmLineV::Gate { qubits, .. } => all_below(qubits, n),
        QasmLineV::ControlledU { control, target, .. } => control < n && target < n,
        QasmLineV::MultiU { controls, target, .. } => all_below(controls, n) && target < n,
    }
}

/// Every statement of `p` stays in a register of `n` qubits.
pub open spec fn plan_in_register(p: Seq<QasmStmtV>, n: nat) -> bool {
    forall|k: int| 0 <= k < p.len() ==> line_in_register(#[trigger] p[k].line, n)
}

/// The decomposition of a multi-controlled X on qubits of the register,
/// borrowed qubits included, names only qubits of the register.
pub proof fn lemma_mcx_in_register(n: nat, controls: Seq<usize>, target: usize)
    requires
        n <= usize::MAX,
        all_below(controls, n),
        target < n,
    ensures
        forall|i: int| 0 <= i < mcx_plan(n, controls, target).len() ==> line_in_register(
            #[trigger] mcx_plan(n, controls, target)[i],
            n,
        ),
    decreases controls.len(),
{
    let p = mcx_plan(n, controls, target);
    if controls.len() <= 2 {
        assert forall|i: int| 0 <= i < p.len() implies line_in_register(#[trigger] p[i], n) by {
            if let QasmLineV::Gate { qubits, .. } = p[i] {
                assert forall|j: int| 0 <= j < qubits.len() implies #[trigger] qubits[j] < n by {
                    if j < controls.len() {
                        assert(qubits[j] == controls[j]);
                    }
                }
            }
        }
    } else {
        match free_from(n, controls, target, 0) {
            Some(b) => {
                lemma_free_from_sound(n, controls, target, 0);
                let half = (controls.len() + 1) / 2;
                let lo = controls.take(half as int);
                let hi = controls.skip(half as int).push(b);
                assert forall|i: int| 0 <= i < lo.len() implies #[trigger] lo[i] < n by {
                    assert(lo[i] == controls[i]);
                }
                assert forall|i: int| 0 <= i < hi.len() implies #[trigger] hi[i] < n by {
                    if i < hi.len() - 1 {
                        assert(hi[i] == controls[half + i]);
                    }
                }
                lemma_mcx_in_register(n, lo, b);
                lemma_mcx_in_register(n, hi, target);
                let p1 = mcx_plan(n, lo, b);
                let p2 = mcx_plan(n, hi, target);
                let once = p1 + p2;
                assert forall|i: int| 0 <= i < once.len() implies line_in_register(#[trigger] once[i], n) by {
                    if i < p1.len() {
                        assert(once[i] == p1[i]);
                    } else {
                        assert(once[i] == p2[i - p1.len()]);
                    }
                }
                assert forall|i: int| 0 <= i < (once + once).len() implies line_in_register(
                    #[trigger] (once + once)[i],
                    n,
                ) by {
                    if i < once.len() {
                        assert((once + once)[i] == once[i]);
                    } else {
                        assert((once + once)[i] == once[i - once.len()]);
                    }
                }
            },
            None => {
                let last = controls.last();
                let rest = controls.drop_last();
                assert forall|i: int| 0 <= i < rest.len() implies #[trigger] rest[i] < n by {
                    assert(rest[i] == controls[i]);
                }
                assert(last == controls[controls.len() - 1]);
                lemma_mcx_in_register(n, rest, last);
                let inner = mcx_plan(n, rest, last);
                let a = seq![QasmLineV::ControlledU { gate: GateV::SX, control: last, target }];
                let c = seq![QasmLineV::ControlledU { gate: GateV::SXdg, control: last, target }];
                let d = seq![QasmLineV::MultiU { gate: GateV::SX, controls: rest, target }];
                let whole = a + inner + c + inner + d;
                assert(p == whole);
                assert forall|i: int| 0 <= i < whole.len() implies line_in_register(#[trigger] whole[i], n) by {
                    let k1 = a.len() as int;
                    let k2 = k1 + inner.len();
                    let k3 = k2 + c.len();
                    let k4 = k3 + inner.len();
                    if i < k1 {
                        assert(whole[i] == a[i]);
                    } else if i < k2 {
                        assert(whole[i] == inner[i - k1]);
                    } else if i < k3 {
                        assert(whole[i] == c[i - k2]);
                    } else if i < k4 {
                        assert(whole[i] == inner[i - k3]);
                    } else {
                        assert(whole[i] == d[i - k4]);
                    }
                }
            },
        }
    }
}

/// The statements of a gate on qubits of the register stay in it.
proof fn lemma_gate_plan_in_register(n: nat, g: GateOpV)
    requires
        n <= usize::MAX,
        gate_in_range(g, n),
    ensures
        gate_op_plan(n, g) matches Ok(ls) ==> forall|i: int| 0 <= i < ls.len() ==> line_in_register(
            #[trigger] ls[i],
            n,
        ),
{
    match g {
        GateOpV::MultiControlled { gate, controls, target, label } => {
            if label == Label::X {
                lemma_mcx_in_register(n, controls, target);
            }
        },
        GateOpV::Controlled { gate, control, target, label } => {
            let l = controlled_line(gate, control, target, label);
            if let QasmLineV::Gate { qubits, .. } = l {
                assert(qubits =~= seq![control, target]);
            }
        },
        _ => {},
    }
}

/// Unguarded or guarded, the same statements stay in the register.
proof fn lemma_guarded_in_register(ls: Seq<QasmLineV>, guard: Option<u64>, n: nat)
    requires
        forall|i: int| 0 <= i < ls.len() ==> line_in_register(#[trigger] ls[i], n),
    ensures
        plan_in_register(guarded_lines(ls, guard), n),
{
    assert forall|k: int| 0 <= k < guarded_lines(ls, guard).len() implies line_in_register(
        #[trigger] guarded_lines(ls, guard)[k].line,
        n,
    ) by {
        assert(guarded_lines(ls, guard)[k].line == ls[k]);
    }
}

/// Two plans in the register joined stay in it.
proof fn lemma_plan_append_in_register(p: Seq<QasmStmtV>, q: Seq<QasmStmtV>, n: nat)
    requires
        plan_in_register(p, n),
        plan_in_register(q, n),
    ensures
        plan_in_register(p + q, n),
{
    assert forall|k: int| 0 <= k < (p + q).len() implies line_in_register(#[trigger] (p + q)[k].line, n) by {
        if k < p.len() {
            assert((p + q)[k] == p[k]);
        } else {
            assert((p + q)[k] == q[k - p.len()]);
        }
    }
}

/// A conditional block of gates on qubits of the register stays in it.
proof fn lemma_block_in_register(n: nat, ops: Seq<GateOpV>, value: u64)
    requires
        n <= usize::MAX,
        gates_in_range(ops, n),
    ensures
        block_plan(n, ops, value) matches Ok(p) ==> plan_in_register(p, n),
    decreases ops.len(),
{
    if ops.len() > 0 {
        assert forall|i: int| 0 <= i < ops.len() - 1 implies gate_in_range(#[trigger] ops.drop_last()[i], n) by {
            assert(ops.drop_last()[i] == ops[i]);
        }
        lemma_block_in_register(n, ops.drop_last(), value);
        assert(gate_in_range(ops[ops.len() - 1], n));
        lemma_gate_plan_in_register(n, ops.last());
        match block_plan(n, ops.drop_last(), value) {
            Ok(p) => match gate_op_plan(n, ops.last()) {
                Ok(ls) => {
                    lemma_guarded_in_register(ls, Some(value), n);
                    lemma_plan_append_in_register(p, guarded_lines(ls, Some(value)), n);
                },
                Err(_) => {},
            },
            Err(_) => {},
        }
    }
}

/// The operations `ops` of a circuit in range export within the register.
proof fn lemma_ops_plan_in_register(n: nat, ops: Seq<OpV>)
    requires
        n <= usize::MAX,
        forall|i: int| 0 <= i < ops.len() ==> op_in_range(#[trigger] ops[i], n),
    ensures
        ops_plan(n, ops) matches Ok(p) ==> plan_in_register(p, n),
    decreases ops.len(),
{
    if ops.len() > 0 {
        assert forall|i: int| 0 <= i < ops.len() - 1 implies op_in_range(#[trigger] ops.drop_last()[i], n) by {
            assert(ops.drop_last()[i] == ops[i]);
        }
        lemma_ops_plan_in_register(n, ops.drop_last());
        let o = ops.last();
        assert(op_in_range(ops[ops.len() - 1], n));
        match ops_plan(n, ops.drop_last()) {
            Ok(p) => {
                match o {
                    OpV::Gate(g) => {
                        lemma_gate_plan_in_register(n, g);
                        if let Ok(ls) = gate_op_plan(n, g) {
                            lemma_guarded_in_register(ls, None, n);
                        }
                    },
                    OpV::Conditional { value, ops: block } => {
                        lemma_block_in_register(n, block, value);
                    },
                    _ => {},
                }
                if let Ok(q) = op_plan(n, o) {
                    lemma_plan_append_in_register(p, q, n);
                }
            },
            Err(_) => {},
        }
    }
}

/// The exported program of a circuit whose operations name qubits of its
/// register allocates no qubit of its own: every statement, the
/// decompositions of multi-controlled gates and their borrowed qubits
/// included, names only qubits of the register the header declares.
pub proof fn lemma_export_in_register(c: CircuitV)
    requires
        in_range(c),
    ensures
        qasm_plan_spec(c) matches Ok(p) ==> plan_in_register(p, c.n_qubits as nat),
{
    let n = c.n_qubits as nat;
    lemma_ops_plan_in_register(n, c.ops);
    let h = header(c);
    assert(plan_in_register(h, n)) by {
        assert forall|k: int| 0 <= k < h.len() implies line_in_register(#[trigger] h[k].line, n) by {
        }
    }
    if let Ok(p) = ops_plan(n, c.ops) {
        lemma_plan_append_in_register(h, p, n);
    }
}

// ---------------------------------------------------------------------------
// The diagram.
// ---------------------------------------------------------------------------

/// A larger number has at least as many decimal digits.
pub proof fn lemma_decimal_len_mono(a: nat, b: nat)
    requires
        a <= b,
    ensures
        decimal(a).len() <= decimal(b).len(),
    decreases b,
{
    if b >= 10 && a >= 10 {
        lemma_decimal_len_mono(a / 10, b / 10);
    } else if b >= 10 {
        lemma_decimal_len_pos(b / 10);
    }
}

/// Every decimal has a digit.
pub proof fn lemma_decimal_len_pos(a: nat)
    ensures
        decimal(a).len() >= 1,
    decreases a,
{
    if a >= 10 {
        lemma_decimal_len_pos(a / 10);
    }
}

/// No mark of a column is wider than the widest of all columns.
pub proof fn lemma_widest_bounds(cols: Seq<Seq<Option<Tok>>>, i: int, r: int)
    requires
        0 <= i < cols.len(),
        0 <= r < cols[i].len(),
    ensures
        cell_text(cols[i][r]).len() <= widest(cols),
    decreases cols.len(),
{
    if i < cols.len() - 1 {
        assert(cols.drop_last()[i] == cols[i]);
        lemma_widest_bounds(cols.drop_last(), i, r);
    } else {
        lemma_widest_in_bounds(cols[i], r);
    }
}

/// No mark of a column is wider than its widest.
pub proof fn lemma_widest_in_bounds(col: Seq<Option<Tok>>, r: int)
    requires
        0 <= r < col.len(),
    ensures
        cell_text(col[r]).len() <= widest_in(col),
    decreases col.len(),
{
    if r < col.len() - 1 {
        assert(col.drop_last()[r] == col[r]);
        lemma_widest_in_bounds(col.drop_last(), r);
    }
}

/// Row `r` exists in every column, and its marks fit in `width`.
pub open spec fn cells_fit(cols: Seq<Seq<Option<Tok>>>, r: int, width: nat) -> bool {
    forall|i: int| #![trigger cols[i]] 0 <= i < cols.len() ==> (0 <= r && r < cols[i].len() && cell_text(cols[i][r]).len()
        <= width)
}

/// Each cell of a row is the cell width plus its wire.
#[verifier::spinoff_prover]
pub proof fn lemma_cells_len(cols: Seq<Seq<Option<Tok>>>, r: int, width: nat, k: int)
    requires
        cells_fit(cols, r, width),
        0 <= k <= cols.len(),
    ensures
        cells(cols.take(k), r, width).len() == k * (width + 1),
    decreases k,
{
    if k > 0 {
        lemma_cells_len(cols, r, width, k - 1);
        let tk = cols.take(k);
        assert(tk.drop_last() =~= cols.take(k - 1));
        assert(tk.last() == cols[k - 1]);
        let last = cols[k - 1];
        assert(0 <= r && r < last.len() && cell_text(last[r]).len() <= width);
        let t = cell_text(last[r]);
        assert(center(t, width).len() == width);
        let prev = cells(cols.take(k - 1), r, width);
        assert(cells(tk, r, width) == prev + center(t, width) + seq!['-']);
        assert(cells(tk, r, width).len() == prev.len() + width + 1);
        assert(k * (width + 1) == (k - 1) * (width + 1) + width + 1) by (nonlinear_arith);
    }
}

/// Every row of a circuit's diagram has the same length, so its columns line
/// up: the label gutter is as wide as the largest label, and every cell as
/// wide as the widest mark.
pub proof fn lemma_rows_aligned(c: CircuitV, r1: nat, r2: nat)
    requires
        in_range(c),
        r1 < c.n_qubits,
        r2 < c.n_qubits,
    ensures
        ({
            let n = c.n_qubits as nat;
            let cols = c.ops.map_values(|o: OpV| op_column(o, n));
            let w = widest(cols);
            let width = if w == 0 { 1 } else { w };
            let gutter = qubit_label((n - 1) as nat).len();
            row(r1, cols, width, gutter).len() == row(r2, cols, width, gutter).len()
        }),
{
    let n = c.n_qubits as nat;
    let cols = c.ops.map_values(|o: OpV| op_column(o, n));
    let w = widest(cols);
    let width: nat = if w == 0 { 1 } else { w };
    let gutter = qubit_label((n - 1) as nat).len();
    assert forall|i: int| 0 <= i < cols.len() implies #[trigger] cols[i].len() == n by {
        assert(op_in_range(c.ops[i], n));
        crate::diagram::lemma_column_len(c.ops[i], n);
    }
    assert forall|r: nat| r < n implies #[trigger] cells(cols, r as int, width).len() == cols.len() * (width + 1) by {
        assert forall|i: int| #![trigger cols[i]] 0 <= i < cols.len() implies (0 <= r && r < cols[i].len() && cell_text(
            cols[i][r as int],
        ).len() <= width) by {
            assert(cols[i].len() == n);
            lemma_widest_bounds(cols, i, r as int);
        }
        assert(cells_fit(cols, r as int, width));
        lemma_cells_len(cols, r as int, width, cols.len() as int);
        assert(cols.take(cols.len() as int) =~= cols);
    }
    assert forall|r: nat| r < n implies #[trigger] qubit_label(r).len() <= gutter by {
        lemma_decimal_len_mono(r, (n - 1) as nat);
    }
    assert(cells(cols, r1 as int, width).len() == cells(cols, r2 as int, width).len());
    assert(qubit_label(r1).len() <= gutter);
    assert(qubit_label(r2).len() <= gutter);
}

// ---------------------------------------------------------------------------
// The generator, and declarations.
// ---------------------------------------------------------------------------

/// A generator's stream never reaches the zero state, from which it could
/// not leave: every value drawn is nonzero.
pub proof fn lemma_stream_nonzero(state: u64, k: nat)
    requires
        state != 0,
    ensures
        stream(state, k) != 0,
    decreases k,
{
    lemma_xorshift_nonzero(state);
    if k > 0 {
        lemma_stream_nonzero(xorshift(state), (k - 1) as nat);
    }
}

/// Every seed, zero included, starts a generator in a nonzero state.
pub proof fn lemma_seed_state_nonzero(seed: u64)
    ensures
        seed_state(seed) != 0,
{
    let z0 = seed.wrapping_add(0x9E37_79B9_7F4A_7C15u64);
    let z1 = (z0 ^ (z0 >> 30u64)).wrapping_mul(0xBF58_476D_1CE4_E5B9u64);
    let z2 = (z1 ^ (z1 >> 27u64)).wrapping_mul(0x94D0_49BB_1331_11EBu64);
    let x = z2 ^ (z2 >> 31u64);
    assert((x | 1u64) != 0) by (bit_vector);
}

/// A declaration in the file wins over the built-in gate of the same name:
/// a call of a declared name is expanded, whatever the built-ins hold.
pub proof fn lemma_declaration_shadows_builtin(
    c: CircuitV,
    defs: Seq<(Seq<char>, GateDefV)>,
    name: Seq<char>,
    a: Seq<AngleV>,
    q: Seq<usize>,
    budget: nat,
    depth: nat,
    stmt: Seq<char>,
)
    requires
        lookup_def(defs, name) is Some,
    ensures
        apply_spec(c, defs, name, a, q, budget, depth, stmt) == expand_spec(
            c,
            defs,
            name,
            lookup_def(defs, name)->0,
            a,
            q,
            budget,
            depth,
            stmt,
        ),
{
}

// ---------------------------------------------------------------------------
// Comments.
// ---------------------------------------------------------------------------

/// No `//` and no `/*` anywhere in `t`: nothing in it starts a comment.
pub open spec fn no_comment_start(t: Seq<char>) -> bool {
    forall|k: int| 0 <= k < t.len() - 1 && #[trigger] t[k] == '/' ==> t[k + 1] != '/' && t[k + 1] != '*'
}

/// What is left of `s[i..]` once its comments are removed starts no comment.
proof fn lemma_strip_leaves_no_comment(s: Seq<char>, i: int, in_block: bool)
    ensures
        no_comment_start(strip_from(s, i, in_block)),
    decreases s.len() - i,
{
    if 0 <= i < s.len() {
        if in_block {
            if s[i] == '*' && i + 1 < s.len() && s[i + 1] == '/' {
                lemma_strip_leaves_no_comment(s, i + 2, false);
            } else {
                lemma_strip_leaves_no_comment(s, i + 1, true);
            }
        } else if s[i] == '/' && i + 1 < s.len() && s[i + 1] == '*' {
            lemma_strip_leaves_no_comment(s, i + 2, true);
        } else if s[i] == '/' && i + 1 < s.len() && s[i + 1] == '/' {
            let j = crate::qasm::next_newline(s, i + 1);
            crate::qasm::lemma_next_newline(s, i + 1);
            if j < s.len() {
                lemma_strip_leaves_no_comment(s, j + 1, false);
                let rest = strip_from(s, j + 1, false);
                let t = seq!['\n'] + rest;
                assert forall|k: int| 0 <= k < t.len() - 1 && #[trigger] t[k] == '/' implies t[k + 1] != '/'
                    && t[k + 1] != '*' by {
                    assert(k >= 1);
                    assert(t[k] == rest[k - 1]);
                    assert(t[k + 1] == rest[k]);
                }
            }
        } else {
            lemma_strip_leaves_no_comment(s, i + 1, false);
            let rest = strip_from(s, i + 1, false);
            let t = seq![s[i]] + rest;
            assert(strip_from(s, i, false) == t);
            if s[i] == '/' && i + 1 < s.len() {
                assert(rest[0] == s[i + 1]);
            }
            assert forall|k: int| 0 <= k < t.len() - 1 && #[trigger] t[k] == '/' implies t[k + 1] != '/' && t[k
                + 1] != '*' by {
                if k >= 1 {
                    assert(t[k] == rest[k - 1]);
                    assert(t[k + 1] == rest[k]);
                } else {
                    assert(t[1] == rest[0]);
                }
            }
        }
    }
}

/// Text that starts no comment is left as it is.
proof fn lemma_strip_keeps_plain(t: Seq<char>, i: int)
    requires
        no_comment_start(t),
        0 <= i <= t.len(),
    ensures
        strip_from(t, i, false) == t.skip(i),
    decreases t.len() - i,
{
    if i < t.len() {
        if t[i] == '/' && i + 1 < t.len() {
            assert(t[i + 1] != '/' && t[i + 1] != '*');
        }
        lemma_strip_keeps_plain(t, i + 1);
        assert(t.skip(i) =~= seq![t[i]] + t.skip(i + 1));
    } else {
        assert(t.skip(i) =~= Seq::<char>::empty());
    }
}

/// Removing comments leaves no `//` and no `/*` behind, so removing them
/// again changes nothing; and text with no `//` or `/*` in it, in particular
/// text with no `/` at all, is left exactly as it was.
pub proof fn lemma_strip_comments_clean(src: Seq<char>)
    ensures
        no_comment_start(strip_from(src, 0, false)),
        strip_from(strip_from(src, 0, false), 0, false) == strip_from(src, 0, false),
        no_comment_start(src) ==> strip_from(src, 0, false) == src,
{
    let r = strip_from(src, 0, false);
    lemma_strip_leaves_no_comment(src, 0, false);
    lemma_strip_keeps_plain(r, 0);
    assert(r.skip(0) =~= r);
    if no_comment_start(src) {
        lemma_strip_keeps_plain(src, 0);
        assert(src.skip(0) =~= src);
    }
}

} // verus!
