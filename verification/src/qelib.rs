//! The built-in gates of the OpenQASM importer: the gates of `qelib1.inc`
//! and the two primitives `U` and `CX`.
//!
//! `include` is ignored rather than honoured, so each gate is applied here.
//! Where a gate is exactly one of the circuit's own operations it is applied
//! as one; the rest follow `qelib1`'s decomposition.
use vstd::prelude::*;
use crate::circuit::{
    gates_only, is_gate, sp_cnot, sp_cswap, sp_h, sp_mc, sp_p, sp_u2, sp_u3, with_controlled, with_gate, with_single, Circuit,
    CircuitV, Gate, GateOpV, GateV, Label,
};
use crate::expr::{angles_v, neg_v, pi_minus_v, pi_over_v, pi_v, zero_v, Angle, AngleV};
use crate::qasm::{distinct, require_distinct};
use crate::text::{chars_of, decimal, push_all, push_decimal, same};

verus! {

/// A built-in gate.
#[derive(Debug, Clone, Copy, PartialEq, Eq, Structural)]
pub enum Builtin {
    Id, X, Y, Z, H, S, T, Sdg, Tdg,
    /// `u1` / `p`
    P,
    U2,
    /// `u3` / `U` / `u`
    U3,
    Rx, Ry, Rz,
    /// `cx` / `CX`
    Cx,
    Cy, Cz, Ch, Crz,
    /// `cu1` / `cp`
    Cp,
    Cu3, Swap, Cswap, Ccx, U0, Sx, Sxdg, Crx, Cry, Csx, Cu, Rxx, Rzz, Rccx, Rc3x, C3x, C3sqrtx, C4x,
}

/// The built-in gate a name calls, if any.
pub open spec fn builtin_of(n: Seq<char>) -> Option<Builtin> {
    if n == "id"@ { Some(Builtin::Id) }
    else if n == "x"@ { Some(Builtin::X) }
    else if n == "y"@ { Some(Builtin::Y) }
    else if n == "z"@ { Some(Builtin::Z) }
    else if n == "h"@ { Some(Builtin::H) }
    else if n == "s"@ { Some(Builtin::S) }
    else if n == "t"@ { Some(Builtin::T) }
    else if n == "sdg"@ { Some(Builtin::Sdg) }
    else if n == "tdg"@ { Some(Builtin::Tdg) }
    else if n == "u1"@ || n == "p"@ { Some(Builtin::P) }
    else if n == "u2"@ { Some(Builtin::U2) }
    else if n == "u3"@ || n == "U"@ || n == "u"@ { Some(Builtin::U3) }
    else if n == "rx"@ { Some(Builtin::Rx) }
    else if n == "ry"@ { Some(Builtin::Ry) }
    else if n == "rz"@ { Some(Builtin::Rz) }
    else if n == "cx"@ || n == "CX"@ { Some(Builtin::Cx) }
    else if n == "cy"@ { Some(Builtin::Cy) }
    else if n == "cz"@ { Some(Builtin::Cz) }
    else if n == "ch"@ { Some(Builtin::Ch) }
    else if n == "crz"@ { Some(Builtin::Crz) }
    else if n == "cu1"@ || n == "cp"@ { Some(Builtin::Cp) }
    else if n == "cu3"@ { Some(Builtin::Cu3) }
    else if n == "swap"@ { Some(Builtin::Swap) }
    else if n == "cswap"@ { Some(Builtin::Cswap) }
    else if n == "ccx"@ { Some(Builtin::Ccx) }
    else if n == "u0"@ { Some(Builtin::U0) }
    else if n == "sx"@ { Some(Builtin::Sx) }
    else if n == "sxdg"@ { Some(Builtin::Sxdg) }
    else if n == "crx"@ { Some(Builtin::Crx) }
    else if n == "cry"@ { Some(Builtin::Cry) }
    else if n == "csx"@ { Some(Builtin::Csx) }
    else if n == "cu"@ { Some(Builtin::Cu) }
    else if n == "rxx"@ { Some(Builtin::Rxx) }
    else if n == "rzz"@ { Some(Builtin::Rzz) }
    else if n == "rccx"@ { Some(Builtin::Rccx) }
    else if n == "rc3x"@ { Some(Builtin::Rc3x) }
    else if n == "c3x"@ { Some(Builtin::C3x) }
    else if n == "c3sqrtx"@ { Some(Builtin::C3sqrtx) }
    else if n == "c4x"@ { Some(Builtin::C4x) }
    else { None }
}

/// How many qubits and how many angles a built-in gate takes.
pub open spec fn shape(b: Builtin) -> (usize, usize) {
    match b {
        Builtin::P | Builtin::Rx | Builtin::Ry | Builtin::Rz | Builtin::U0 => (1, 1),
        Builtin::U2 => (1, 2),
        Builtin::U3 => (1, 3),
        Builtin::Id | Builtin::X | Builtin::Y | Builtin::Z | Builtin::H | Builtin::S | Builtin::T
        | Builtin::Sdg | Builtin::Tdg | Builtin::Sx | Builtin::Sxdg => (1, 0),
        Builtin::Cx | Builtin::Cy | Builtin::Cz | Builtin::Ch | Builtin::Swap | Builtin::Csx => (2, 0),
        Builtin::Crz | Builtin::Cp | Builtin::Crx | Builtin::Cry | Builtin::Rxx | Builtin::Rzz => (2, 1),
        Builtin::Cu3 => (2, 3),
        Builtin::Cu => (2, 4),
        Builtin::Cswap | Builtin::Ccx | Builtin::Rccx => (3, 0),
        Builtin::Rc3x | Builtin::C3x | Builtin::C3sqrtx => (4, 0),
        Builtin::C4x => (5, 0),
    }
}

/// `u2(0, pi)` on `t`: a Hadamard up to phase, as `qelib1` writes it.
pub open spec fn sp_u2h(c: CircuitV, t: usize) -> CircuitV {
    sp_u2(c, zero_v(), pi_v(), t)
}

/// `p(pi/4)` on `t`.
pub open spec fn sp_quarter(c: CircuitV, t: usize) -> CircuitV {
    sp_p(c, pi_over_v("4"@), t)
}

/// `p(-pi/4)` on `t`.
pub open spec fn sp_unquarter(c: CircuitV, t: usize) -> CircuitV {
    sp_p(c, neg_v(pi_over_v("4"@)), t)
}

/// `rxx(theta)` on `a`, `b`, by `qelib1`'s decomposition.
pub open spec fn sp_rxx(c: CircuitV, theta: AngleV, a: usize, b: usize) -> CircuitV {
    let c1 = sp_h(sp_u3(c, pi_over_v("2"@), theta, zero_v(), a), b);
    let c2 = sp_cnot(sp_p(sp_cnot(c1, a, b), neg_v(theta), b), a, b);
    sp_u2(sp_h(c2, b), neg_v(pi_v()), pi_minus_v(theta), a)
}

/// `rzz(theta)` on `a`, `b`.
pub open spec fn sp_rzz(c: CircuitV, theta: AngleV, a: usize, b: usize) -> CircuitV {
    sp_cnot(sp_p(sp_cnot(c, a, b), theta, b), a, b)
}

/// The relative-phase Toffoli `rccx` on `a`, `b`, `t`.
pub open spec fn sp_rccx(c: CircuitV, a: usize, b: usize, t: usize) -> CircuitV {
    let c1 = sp_quarter(sp_u2h(c, t), t);
    let c2 = sp_unquarter(sp_cnot(c1, b, t), t);
    let c3 = sp_quarter(sp_cnot(c2, a, t), t);
    let c4 = sp_unquarter(sp_cnot(c3, b, t), t);
    sp_u2h(c4, t)
}

/// The relative-phase three-control X `rc3x` on `a`, `b`, `d`, `t`.
pub open spec fn sp_rc3x(c: CircuitV, a: usize, b: usize, d: usize, t: usize) -> CircuitV {
    let c1 = sp_quarter(sp_u2h(c, t), t);
    let c2 = sp_u2h(sp_unquarter(sp_cnot(c1, d, t), t), t);
    let c3 = sp_quarter(sp_cnot(c2, a, t), t);
    let c4 = sp_unquarter(sp_cnot(c3, b, t), t);
    let c5 = sp_quarter(sp_cnot(c4, a, t), t);
    let c6 = sp_unquarter(sp_cnot(c5, b, t), t);
    let c7 = sp_quarter(sp_u2h(c6, t), t);
    sp_u2h(sp_unquarter(sp_cnot(c7, d, t), t), t)
}

/// What a built-in gate appends, its angles `a` and qubits `q` being of the
/// right number.
pub open spec fn effect(c: CircuitV, b: Builtin, a: Seq<AngleV>, q: Seq<usize>) -> CircuitV {
    match b {
        Builtin::Id | Builtin::U0 => with_single(c, GateV::I, q[0], Label::I),
        Builtin::X => with_single(c, GateV::X, q[0], Label::X),
        Builtin::Y => with_single(c, GateV::Y, q[0], Label::Y),
        Builtin::Z => with_single(c, GateV::Z, q[0], Label::Z),
        Builtin::H => with_single(c, GateV::H, q[0], Label::H),
        Builtin::S => with_single(c, GateV::S, q[0], Label::S),
        Builtin::T => with_single(c, GateV::T, q[0], Label::T),
        Builtin::Sdg => with_single(c, GateV::Sdg, q[0], Label::SDG),
        Builtin::Tdg => with_single(c, GateV::Tdg, q[0], Label::TDG),
        Builtin::Sx => with_single(c, GateV::SX, q[0], Label::SX),
        Builtin::Sxdg => with_single(c, GateV::SXdg, q[0], Label::SXDG),
        Builtin::P => sp_p(c, a[0], q[0]),
        Builtin::U2 => sp_u2(c, a[0], a[1], q[0]),
        Builtin::U3 => sp_u3(c, a[0], a[1], a[2], q[0]),
        Builtin::Rx => with_single(c, GateV::RX(a[0]), q[0], Label::RX),
        Builtin::Ry => with_single(c, GateV::RY(a[0]), q[0], Label::RY),
        Builtin::Rz => with_single(c, GateV::RZ(a[0]), q[0], Label::RZ),
        Builtin::Cx => sp_cnot(c, q[0], q[1]),
        Builtin::Cy => with_controlled(c, GateV::Y, q[0], q[1], Label::Y),
        Builtin::Cz => with_controlled(c, GateV::Z, q[0], q[1], Label::Z),
        Builtin::Ch => with_controlled(c, GateV::H, q[0], q[1], Label::H),
        Builtin::Crz => with_controlled(c, GateV::RZ(a[0]), q[0], q[1], Label::CRZ),
        Builtin::Cp => with_controlled(c, GateV::P(a[0]), q[0], q[1], Label::CP),
        Builtin::Cu3 => with_controlled(c, GateV::U3(a[0], a[1], a[2]), q[0], q[1], Label::CU3),
        Builtin::Swap => with_gate(c, GateOpV::Swap { a: q[0], b: q[1] }),
        Builtin::Cswap => sp_cswap(c, q[0], q[1], q[2]),
        Builtin::Ccx => sp_mc(c, GateV::X, seq![q[0], q[1]], q[2], Label::X),
        Builtin::Crx => with_controlled(c, GateV::RX(a[0]), q[0], q[1], Label::U),
        Builtin::Cry => with_controlled(c, GateV::RY(a[0]), q[0], q[1], Label::U),
        Builtin::Csx => with_controlled(c, GateV::SX, q[0], q[1], Label::U),
        Builtin::Cu => with_controlled(
            sp_p(c, a[3], q[0]),
            GateV::U3(a[0], a[1], a[2]),
            q[0],
            q[1],
            Label::CU3,
        ),
        Builtin::Rxx => sp_rxx(c, a[0], q[0], q[1]),
        Builtin::Rzz => sp_rzz(c, a[0], q[0], q[1]),
        Builtin::Rccx => sp_rccx(c, q[0], q[1], q[2]),
        Builtin::Rc3x => sp_rc3x(c, q[0], q[1], q[2], q[3]),
        Builtin::C3x => sp_mc(c, GateV::X, seq![q[0], q[1], q[2]], q[3], Label::X),
        Builtin::C3sqrtx => sp_mc(c, GateV::SX, seq![q[0], q[1], q[2]], q[3], Label::U),
        Builtin::C4x => sp_mc(c, GateV::X, seq![q[0], q[1], q[2], q[3]], q[4], Label::X),
    }
}

/// A built-in gate appends gates only: no measurement, reset or conditional.
pub proof fn lemma_effect_gates(c: CircuitV, b: Builtin, a: Seq<AngleV>, q: Seq<usize>)
    requires
        gates_only(c.ops),
    ensures
        gates_only(effect(c, b, a, q).ops),
        effect(c, b, a, q).n_qubits == c.n_qubits,
        c.ops.len() <= effect(c, b, a, q).ops.len(),
        effect(c, b, a, q).ops.take(c.ops.len() as int) == c.ops,
{
    let e = effect(c, b, a, q);
    assert forall|i: int| 0 <= i < e.ops.len() implies is_gate(#[trigger] e.ops[i]) by {
        if i < c.ops.len() {
            assert(is_gate(c.ops[i]));
        }
    }
    assert(e.ops.take(c.ops.len() as int) =~= c.ops);
}

/// `` `name` takes n what, got m in `stmt` ``
pub open spec fn count_msg(name: Seq<char>, n: nat, what: Seq<char>, m: nat, stmt: Seq<char>) -> Seq<char> {
    "`"@ + name + "` takes "@ + decimal(n) + what + ", got "@ + decimal(m) + " in `"@ + stmt + "`"@
}

/// Applying the built-in gate `name`: the circuit it leaves, or why the call
/// is refused.
pub open spec fn builtin_spec(
    c: CircuitV,
    name: Seq<char>,
    a: Seq<AngleV>,
    q: Seq<usize>,
    stmt: Seq<char>,
) -> Result<CircuitV, Seq<char>> {
    match builtin_of(name) {
        None => Err("unsupported gate `"@ + name + "` in `"@ + stmt + "`"@),
        Some(b) => {
            let (nq, na) = shape(b);
            if q.len() != nq {
                Err(count_msg(name, nq as nat, " qubit(s)"@, q.len(), stmt))
            } else if a.len() != na {
                Err(count_msg(name, na as nat, " angle(s)"@, a.len(), stmt))
            } else if nq > 1 && !distinct(q) {
                Err("operands must be distinct qubits: `"@ + stmt + "`"@)
            } else {
                Ok(effect(c, b, a, q))
            }
        },
    }
}

/// Whether `name` reads `lit`.
fn is(name: &[char], lit: &str) -> (r: bool)
    ensures
        r == (name@ == lit@),
{
    same(name, chars_of(lit).as_slice())
}

/// The built-in gate a name calls.
pub fn builtin_named(n: &[char]) -> (r: Option<Builtin>)
    ensures
        r == builtin_of(n@),
{
    if is(n, "id") { Some(Builtin::Id) }
    else if is(n, "x") { Some(Builtin::X) }
    else if is(n, "y") { Some(Builtin::Y) }
    else if is(n, "z") { Some(Builtin::Z) }
    else if is(n, "h") { Some(Builtin::H) }
    else if is(n, "s") { Some(Builtin::S) }
    else if is(n, "t") { Some(Builtin::T) }
    else if is(n, "sdg") { Some(Builtin::Sdg) }
    else if is(n, "tdg") { Some(Builtin::Tdg) }
    else if is(n, "u1") || is(n, "p") { Some(Builtin::P) }
    else if is(n, "u2") { Some(Builtin::U2) }
    else if is(n, "u3") || is(n, "U") || is(n, "u") { Some(Builtin::U3) }
    else if is(n, "rx") { Some(Builtin::Rx) }
    else if is(n, "ry") { Some(Builtin::Ry) }
    else if is(n, "rz") { Some(Builtin::Rz) }
    else if is(n, "cx") || is(n, "CX") { Some(Builtin::Cx) }
    else if is(n, "cy") { Some(Builtin::Cy) }
    else if is(n, "cz") { Some(Builtin::Cz) }
    else if is(n, "ch") { Some(Builtin::Ch) }
    else if is(n, "crz") { Some(Builtin::Crz) }
    else if is(n, "cu1") || is(n, "cp") { Some(Builtin::Cp) }
    else if is(n, "cu3") { Some(Builtin::Cu3) }
    else if is(n, "swap") { Some(Builtin::Swap) }
    else if is(n, "cswap") { Some(Builtin::Cswap) }
    else if is(n, "ccx") { Some(Builtin::Ccx) }
    else if is(n, "u0") { Some(Builtin::U0) }
    else if is(n, "sx") { Some(Builtin::Sx) }
    else if is(n, "sxdg") { Some(Builtin::Sxdg) }
    else if is(n, "crx") { Some(Builtin::Crx) }
    else if is(n, "cry") { Some(Builtin::Cry) }
    else if is(n, "csx") { Some(Builtin::Csx) }
    else if is(n, "cu") { Some(Builtin::Cu) }
    else if is(n, "rxx") { Some(Builtin::Rxx) }
    else if is(n, "rzz") { Some(Builtin::Rzz) }
    else if is(n, "rccx") { Some(Builtin::Rccx) }
    else if is(n, "rc3x") { Some(Builtin::Rc3x) }
    else if is(n, "c3x") { Some(Builtin::C3x) }
    else if is(n, "c3sqrtx") { Some(Builtin::C3sqrtx) }
    else if is(n, "c4x") { Some(Builtin::C4x) }
    else { None }
}

/// How many qubits and angles `b` takes.
pub fn builtin_shape(b: Builtin) -> (r: (usize, usize))
    ensures
        r == shape(b),
{
    match b {
        Builtin::P | Builtin::Rx | Builtin::Ry | Builtin::Rz | Builtin::U0 => (1, 1),
        Builtin::U2 => (1, 2),
        Builtin::U3 => (1, 3),
        Builtin::Id | Builtin::X | Builtin::Y | Builtin::Z | Builtin::H | Builtin::S | Builtin::T
        | Builtin::Sdg | Builtin::Tdg | Builtin::Sx | Builtin::Sxdg => (1, 0),
        Builtin::Cx | Builtin::Cy | Builtin::Cz | Builtin::Ch | Builtin::Swap | Builtin::Csx => (2, 0),
        Builtin::Crz | Builtin::Cp | Builtin::Crx | Builtin::Cry | Builtin::Rxx | Builtin::Rzz => (2, 1),
        Builtin::Cu3 => (2, 3),
        Builtin::Cu => (2, 4),
        Builtin::Cswap | Builtin::Ccx | Builtin::Rccx => (3, 0),
        Builtin::Rc3x | Builtin::C3x | Builtin::C3sqrtx => (4, 0),
        Builtin::C4x => (5, 0),
    }
}

/// `u2(0, pi)` on `t`.
fn u2h(c: &mut Circuit, t: usize)
    ensures
        final(c)@ == sp_u2h(old(c)@, t),
{
    c.u2(Angle::zero(), Angle::pi(), t);
}

/// `p(pi/4)` on `t`.
fn quarter(c: &mut Circuit, t: usize)
    ensures
        final(c)@ == sp_quarter(old(c)@, t),
{
    c.p(Angle::pi_over("4"), t);
}

/// `p(-pi/4)` on `t`.
fn unquarter(c: &mut Circuit, t: usize)
    ensures
        final(c)@ == sp_unquarter(old(c)@, t),
{
    c.p(Angle::pi_over("4").negated(), t);
}

/// Append `rxx(theta)` on `a`, `b`.
fn rxx(c: &mut Circuit, theta: &Angle, a: usize, b: usize)
    ensures
        final(c)@ == sp_rxx(old(c)@, theta@, a, b),
{
    c.u3(Angle::pi_over("2"), theta.duplicate(), Angle::zero(), a);
    c.h(b);
    c.cnot(a, b);
    c.p(theta.negated(), b);
    c.cnot(a, b);
    c.h(b);
    c.u2(Angle::pi().negated(), theta.pi_minus(), a);
}

/// Append `rccx` on `a`, `b`, `t`.
fn rccx(c: &mut Circuit, a: usize, b: usize, t: usize)
    ensures
        final(c)@ == sp_rccx(old(c)@, a, b, t),
{
    u2h(c, t);
    quarter(c, t);
    c.cnot(b, t);
    unquarter(c, t);
    c.cnot(a, t);
    quarter(c, t);
    c.cnot(b, t);
    unquarter(c, t);
    u2h(c, t);
}

/// Append `rc3x` on `a`, `b`, `d`, `t`.
fn rc3x(c: &mut Circuit, a: usize, b: usize, d: usize, t: usize)
    ensures
        final(c)@ == sp_rc3x(old(c)@, a, b, d, t),
{
    u2h(c, t);
    quarter(c, t);
    c.cnot(d, t);
    unquarter(c, t);
    u2h(c, t);
    c.cnot(a, t);
    quarter(c, t);
    c.cnot(b, t);
    unquarter(c, t);
    c.cnot(a, t);
    quarter(c, t);
    c.cnot(b, t);
    unquarter(c, t);
    u2h(c, t);
    quarter(c, t);
    c.cnot(d, t);
    unquarter(c, t);
    u2h(c, t);
}

/// Append what the built-in `b` does.
pub fn apply_effect(c: &mut Circuit, b: Builtin, a: &[Angle], q: &[usize])
    requires
        q@.len() == shape(b).0,
        a@.len() == shape(b).1,
    ensures
        final(c)@ == effect(old(c)@, b, angles_v(a@), q@),
{
    let ghost av = angles_v(a@);
    proof {
        assert forall|i: int| 0 <= i < a@.len() implies #[trigger] av[i] == a@[i]@ by {}
    }
    match b {
        Builtin::Id | Builtin::U0 => { c.id(q[0]); },
        Builtin::X => { c.x(q[0]); },
        Builtin::Y => { c.y(q[0]); },
        Builtin::Z => { c.z(q[0]); },
        Builtin::H => { c.h(q[0]); },
        Builtin::S => { c.s(q[0]); },
        Builtin::T => { c.t(q[0]); },
        Builtin::Sdg => { c.sdg(q[0]); },
        Builtin::Tdg => { c.tdg(q[0]); },
        Builtin::Sx => { c.sx(q[0]); },
        Builtin::Sxdg => { c.sxdg(q[0]); },
        Builtin::P => { c.p(a[0].duplicate(), q[0]); },
        Builtin::U2 => { c.u2(a[0].duplicate(), a[1].duplicate(), q[0]); },
        Builtin::U3 => { c.u3(a[0].duplicate(), a[1].duplicate(), a[2].duplicate(), q[0]); },
        Builtin::Rx => { c.rx(a[0].duplicate(), q[0]); },
        Builtin::Ry => { c.ry(a[0].duplicate(), q[0]); },
        Builtin::Rz => { c.rz(a[0].duplicate(), q[0]); },
        Builtin::Cx => { c.cnot(q[0], q[1]); },
        Builtin::Cy => { c.cy(q[0], q[1]); },
        Builtin::Cz => { c.cz(q[0], q[1]); },
        Builtin::Ch => { c.ch(q[0], q[1]); },
        Builtin::Crz => { c.crz(a[0].duplicate(), q[0], q[1]); },
        Builtin::Cp => { c.cp(a[0].duplicate(), q[0], q[1]); },
        Builtin::Cu3 => { c.cu3(a[0].duplicate(), a[1].duplicate(), a[2].duplicate(), q[0], q[1]); },
        Builtin::Swap => { c.swap(q[0], q[1]); },
        Builtin::Cswap => { c.cswap(q[0], q[1], q[2]); },
        Builtin::Ccx => { c.toffoli(q[0], q[1], q[2]); },
        Builtin::Crx => { c.cu(Gate::RX(a[0].duplicate()), q[0], q[1]); },
        Builtin::Cry => { c.cu(Gate::RY(a[0].duplicate()), q[0], q[1]); },
        Builtin::Csx => { c.cu(Gate::SX, q[0], q[1]); },
        Builtin::Cu => {
            c.p(a[3].duplicate(), q[0]);
            c.cu3(a[0].duplicate(), a[1].duplicate(), a[2].duplicate(), q[0], q[1]);
        },
        Builtin::Rxx => { rxx(c, &a[0], q[0], q[1]); },
        Builtin::Rzz => {
            c.cnot(q[0], q[1]);
            c.p(a[0].duplicate(), q[1]);
            c.cnot(q[0], q[1]);
        },
        Builtin::Rccx => { rccx(c, q[0], q[1], q[2]); },
        Builtin::Rc3x => { rc3x(c, q[0], q[1], q[2], q[3]); },
        Builtin::C3x => {
            let cs = vec![q[0], q[1], q[2]];
            proof { assert(cs@ =~= seq![q@[0], q@[1], q@[2]]); }
            c.mcx(cs.as_slice(), q[3]);
        },
        Builtin::C3sqrtx => {
            let cs = vec![q[0], q[1], q[2]];
            proof { assert(cs@ =~= seq![q@[0], q@[1], q@[2]]); }
            c.mcu(Gate::SX, cs.as_slice(), q[3]);
        },
        Builtin::C4x => {
            let cs = vec![q[0], q[1], q[2], q[3]];
            proof { assert(cs@ =~= seq![q@[0], q@[1], q@[2], q@[3]]); }
            c.mcx(cs.as_slice(), q[4]);
        },
    }
}

/// `` `name` takes n what, got m in `stmt` ``
fn count_error(name: &[char], n: usize, what: &str, m: usize, stmt: &[char]) -> (r: Vec<char>)
    ensures
        r@ == count_msg(name@, n as nat, what@, m as nat, stmt@),
{
    let mut out = chars_of("`");
    push_all(&mut out, name);
    push_all(&mut out, chars_of("` takes ").as_slice());
    push_decimal(&mut out, n as u64);
    push_all(&mut out, chars_of(what).as_slice());
    push_all(&mut out, chars_of(", got ").as_slice());
    push_decimal(&mut out, m as u64);
    push_all(&mut out, chars_of(" in `").as_slice());
    push_all(&mut out, stmt);
    push_all(&mut out, chars_of("`").as_slice());
    out
}

/// Apply one of the built-in gates by name, checking its qubit and angle
/// counts and that its qubits are distinct.
pub fn apply_builtin(c: &mut Circuit, name: &[char], a: &[Angle], q: &[usize], stmt: &[char]) -> (r: Result<(), Vec<char>>)
    ensures
        match r {
            Ok(()) => builtin_spec(old(c)@, name@, angles_v(a@), q@, stmt@) == Ok::<CircuitV, Seq<char>>(final(c)@),
            Err(m) => builtin_spec(old(c)@, name@, angles_v(a@), q@, stmt@) == Err::<CircuitV, Seq<char>>(m@)
                && final(c)@ == old(c)@,
        },
{
    let b = match builtin_named(name) {
        Some(b) => b,
        None => {
            let mut m = chars_of("unsupported gate `");
            push_all(&mut m, name);
            push_all(&mut m, chars_of("` in `").as_slice());
            push_all(&mut m, stmt);
            push_all(&mut m, chars_of("`").as_slice());
            return Err(m);
        },
    };
    let (nq, na) = builtin_shape(b);
    if q.len() != nq {
        return Err(count_error(name, nq, " qubit(s)", q.len(), stmt));
    }
    if a.len() != na {
        return Err(count_error(name, na, " angle(s)", a.len(), stmt));
    }
    if nq > 1 {
        require_distinct(q, stmt)?;
    }
    apply_effect(c, b, a, q);
    Ok(())
}

// ---------------------------------------------------------------------------
// The gates `qelib1.inc` defines, name by name.
// ---------------------------------------------------------------------------

/// A single-qubit gate on `t`.
pub open spec fn one(g: GateV, t: usize, l: Label) -> GateOpV {
    GateOpV::Single { gate: g, target: t, label: l }
}

/// A gate on `t` controlled by `c`.
pub open spec fn ctl(g: GateV, c: usize, t: usize, l: Label) -> GateOpV {
    GateOpV::Controlled { gate: g, control: c, target: t, label: l }
}

/// `cx c,t`.
pub open spec fn cx_op(c: usize, t: usize) -> GateOpV {
    ctl(GateV::X, c, t, Label::X)
}

/// `u1(a) t`.
pub open spec fn u1_op(a: AngleV, t: usize) -> GateOpV {
    one(GateV::P(a), t, Label::P)
}

/// `u2(0,pi) t`.
pub open spec fn u2h_op(t: usize) -> GateOpV {
    one(GateV::U2(zero_v(), pi_v()), t, Label::U2)
}

/// The call `name(a) q` of `qelib1.inc` (or of the primitives `U` and
/// `CX`), written out: how many qubits and angles it takes, and the gates
/// its definition applies, in order.
pub open spec fn qelib1(name: Seq<char>, a: Seq<AngleV>, q: Seq<usize>) -> Option<(nat, nat, Seq<GateOpV>)> {
    let quarter = |t: usize| u1_op(pi_over_v("4"@), t);
    let unquarter = |t: usize| u1_op(neg_v(pi_over_v("4"@)), t);
    if name == "id"@ { Some((1, 0, seq![one(GateV::I, q[0], Label::I)])) }
    else if name == "x"@ { Some((1, 0, seq![one(GateV::X, q[0], Label::X)])) }
    else if name == "y"@ { Some((1, 0, seq![one(GateV::Y, q[0], Label::Y)])) }
    else if name == "z"@ { Some((1, 0, seq![one(GateV::Z, q[0], Label::Z)])) }
    else if name == "h"@ { Some((1, 0, seq![one(GateV::H, q[0], Label::H)])) }
    else if name == "s"@ { Some((1, 0, seq![one(GateV::S, q[0], Label::S)])) }
    else if name == "t"@ { Some((1, 0, seq![one(GateV::T, q[0], Label::T)])) }
    else if name == "sdg"@ { Some((1, 0, seq![one(GateV::Sdg, q[0], Label::SDG)])) }
    else if name == "tdg"@ { Some((1, 0, seq![one(GateV::Tdg, q[0], Label::TDG)])) }
    else if name == "u1"@ || name == "p"@ { Some((1, 1, seq![u1_op(a[0], q[0])])) }
    else if name == "u2"@ { Some((1, 2, seq![one(GateV::U2(a[0], a[1]), q[0], Label::U2)])) }
    else if name == "u3"@ || name == "U"@ || name == "u"@ {
        Some((1, 3, seq![one(GateV::U3(a[0], a[1], a[2]), q[0], Label::U3)]))
    }
    else if name == "rx"@ { Some((1, 1, seq![one(GateV::RX(a[0]), q[0], Label::RX)])) }
    else if name == "ry"@ { Some((1, 1, seq![one(GateV::RY(a[0]), q[0], Label::RY)])) }
    else if name == "rz"@ { Some((1, 1, seq![one(GateV::RZ(a[0]), q[0], Label::RZ)])) }
    else if name == "cx"@ || name == "CX"@ { Some((2, 0, seq![cx_op(q[0], q[1])])) }
    else if name == "cy"@ { Some((2, 0, seq![ctl(GateV::Y, q[0], q[1], Label::Y)])) }
    else if name == "cz"@ { Some((2, 0, seq![ctl(GateV::Z, q[0], q[1], Label::Z)])) }
    else if name == "ch"@ { Some((2, 0, seq![ctl(GateV::H, q[0], q[1], Label::H)])) }
    else if name == "crz"@ { Some((2, 1, seq![ctl(GateV::RZ(a[0]), q[0], q[1], Label::CRZ)])) }
    else if name == "cu1"@ || name == "cp"@ { Some((2, 1, seq![ctl(GateV::P(a[0]), q[0], q[1], Label::CP)])) }
    else if name == "cu3"@ {
        Some((2, 3, seq![ctl(GateV::U3(a[0], a[1], a[2]), q[0], q[1], Label::CU3)]))
    }
    else if name == "swap"@ { Some((2, 0, seq![GateOpV::Swap { a: q[0], b: q[1] }])) }
    else if name == "cswap"@ {
        Some((3, 0, seq![
            cx_op(q[2], q[1]),
            GateOpV::MultiControlled { gate: GateV::X, controls: seq![q[0], q[1]], target: q[2], label: Label::X },
            cx_op(q[2], q[1]),
        ]))
    }
    else if name == "ccx"@ {
        Some((3, 0, seq![
            GateOpV::MultiControlled { gate: GateV::X, controls: seq![q[0], q[1]], target: q[2], label: Label::X },
        ]))
    }
    else if name == "u0"@ { Some((1, 1, seq![one(GateV::I, q[0], Label::I)])) }
    else if name == "sx"@ { Some((1, 0, seq![one(GateV::SX, q[0], Label::SX)])) }
    else if name == "sxdg"@ { Some((1, 0, seq![one(GateV::SXdg, q[0], Label::SXDG)])) }
    else if name == "crx"@ { Some((2, 1, seq![ctl(GateV::RX(a[0]), q[0], q[1], Label::U)])) }
    else if name == "cry"@ { Some((2, 1, seq![ctl(GateV::RY(a[0]), q[0], q[1], Label::U)])) }
    else if name == "csx"@ { Some((2, 0, seq![ctl(GateV::SX, q[0], q[1], Label::U)])) }
    else if name == "cu"@ {
        Some((2, 4, seq![u1_op(a[3], q[0]), ctl(GateV::U3(a[0], a[1], a[2]), q[0], q[1], Label::CU3)]))
    }
    else if name == "rxx"@ {
        Some((2, 1, seq![
            one(GateV::U3(pi_over_v("2"@), a[0], zero_v()), q[0], Label::U3),
            one(GateV::H, q[1], Label::H),
            cx_op(q[0], q[1]),
            u1_op(neg_v(a[0]), q[1]),
            cx_op(q[0], q[1]),
            one(GateV::H, q[1], Label::H),
            one(GateV::U2(neg_v(pi_v()), pi_minus_v(a[0])), q[0], Label::U2),
        ]))
    }
    else if name == "rzz"@ { Some((2, 1, seq![cx_op(q[0], q[1]), u1_op(a[0], q[1]), cx_op(q[0], q[1])])) }
    else if name == "rccx"@ {
        Some((3, 0, seq![
            u2h_op(q[2]), quarter(q[2]), cx_op(q[1], q[2]), unquarter(q[2]), cx_op(q[0], q[2]),
            quarter(q[2]), cx_op(q[1], q[2]), unquarter(q[2]), u2h_op(q[2]),
        ]))
    }
    else if name == "rc3x"@ {
        Some((4, 0, seq![
            u2h_op(q[3]), quarter(q[3]), cx_op(q[2], q[3]), unquarter(q[3]), u2h_op(q[3]),
            cx_op(q[0], q[3]), quarter(q[3]), cx_op(q[1], q[3]), unquarter(q[3]),
            cx_op(q[0], q[3]), quarter(q[3]), cx_op(q[1], q[3]), unquarter(q[3]),
            u2h_op(q[3]), quarter(q[3]), cx_op(q[2], q[3]), unquarter(q[3]), u2h_op(q[3]),
        ]))
    }
    else if name == "c3x"@ {
        Some((4, 0, seq![
            GateOpV::MultiControlled { gate: GateV::X, controls: seq![q[0], q[1], q[2]], target: q[3], label: Label::X },
        ]))
    }
    else if name == "c3sqrtx"@ {
        Some((4, 0, seq![
            GateOpV::MultiControlled { gate: GateV::SX, controls: seq![q[0], q[1], q[2]], target: q[3], label: Label::U },
        ]))
    }
    else if name == "c4x"@ {
        Some((5, 0, seq![
            GateOpV::MultiControlled {
                gate: GateV::X,
                controls: seq![q[0], q[1], q[2], q[3]],
                target: q[4],
                label: Label::X,
            },
        ]))
    }
    else { None }
}

/// `c` with the gates `gs` appended, in order.
pub open spec fn appended(c: CircuitV, gs: Seq<GateOpV>) -> CircuitV {
    CircuitV { n_qubits: c.n_qubits, ops: c.ops + gs.map_values(|g: GateOpV| crate::circuit::OpV::Gate(g)) }
}

/// Each built-in gate does what `qelib1.inc` defines under its name: a call
/// with the qubits and angles the definition takes, on distinct qubits,
/// appends exactly the gates of that definition (`cry(t) a,b` a controlled
/// `RY(t)` from `a` onto `b`, `rxx` its seven statements, and so on); a call
/// with a wrong count is refused; and a name `qelib1.inc` does not define is
/// an unsupported gate.
#[verifier::rlimit(100)]
#[verifier::spinoff_prover]
pub proof fn lemma_builtins_follow_qelib1(
    c: CircuitV,
    name: Seq<char>,
    a: Seq<AngleV>,
    q: Seq<usize>,
    stmt: Seq<char>,
)
    ensures
        qelib1(name, a, q) is None ==> builtin_spec(c, name, a, q, stmt) == Err::<CircuitV, Seq<char>>(
            "unsupported gate `"@ + name + "` in `"@ + stmt + "`"@,
        ),
        qelib1(name, a, q) matches Some((nq, na, gs)) ==> {
            &&& (q.len() != nq || a.len() != na) ==> builtin_spec(c, name, a, q, stmt) is Err
            &&& (q.len() == nq && a.len() == na && (nq > 1 ==> distinct(q))) ==> builtin_spec(c, name, a, q, stmt)
                == Ok::<CircuitV, Seq<char>>(appended(c, gs))
        },
{
    match builtin_of(name) {
        None => {},
        Some(b) => {
            let e = effect(c, b, a, q);
            let gs = qelib1(name, a, q)->Some_0.2;
            assert(e.ops =~= c.ops + gs.map_values(|g: GateOpV| crate::circuit::OpV::Gate(g)));
        },
    }
}

} // verus!
