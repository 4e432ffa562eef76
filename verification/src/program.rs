//! A tiny line-based program format for describing circuits as text.
//!
//! One instruction per line. `#` starts a comment; blank lines are ignored.
//! The first instruction must be `qubits N`. Example:
//!
//! ```text
//! qubits 3
//! h 0
//! cnot 0 1
//! cnot 1 2      # GHZ state
//! sample 1000 42
//! ```
//!
//! Instructions: `qubits N`; single-qubit `id/h/x/y/z/s/t/sdg/tdg/sx/sxdg Q`;
//! rotations `rx/ry/rz THETA Q`, phase `p THETA Q`, and the general
//! `u2 PHI LAMBDA Q` / `u3 THETA PHI LAMBDA Q`; two-qubit `cnot/cy/cz/ch C T`,
//! `crz/cp THETA C T`, `cu3 THETA PHI LAMBDA C T`, and `swap A B`; three-qubit
//! `toffoli C1 C2 T` and `cswap C A B`; the open-ended multi-controlled
//! `mcx C... T` and `mcu3 THETA PHI LAMBDA C... T`; `measure Q`, which
//! collapses a qubit into classical bit `Q`; `reset Q`; `if VALUE INSTRUCTION`,
//! which runs a gate only when the classical register reads `VALUE`; and
//! `sample SHOTS SEED`. An angle is an arithmetic expression over numbers and
//! `pi`, written without spaces: `0.7`, `pi/2`, `-pi/4`, `2pi`, `(pi/4+0.1)*2`.
use vstd::prelude::*;
use crate::circuit::{
    gates_of, gates_only, is_gate, sp_cswap, sp_mc, sp_p, sp_u2, sp_u3, with_controlled, with_gate, with_op,
    with_single, Circuit, CircuitV, Gate, GateOpV, GateV, Label, OpV,
};
use crate::error::ParseError;
use crate::expr::{parse_expr, parse_expr_spec, Angle, AngleV, ExprV};
use crate::qasm::{cat3, names_of};
use crate::text::{
    chars_of, decimal, first_index, lines, lines_of, parse_u64, parse_u64_spec, parse_usize, parse_usize_spec,
    push_all, push_decimal, same, split_words, string_of, words,
};

verus! {

/// Largest register a program may declare, matching the OpenQASM importer.
pub const MAX_QUBITS: usize = 30;

/// Parameters from a `sample SHOTS SEED` directive.
#[derive(Debug, Clone, Copy, PartialEq, Eq, Structural)]
pub struct SampleSpec {
    /// Number of shots to sample.
    pub shots: usize,
    /// RNG seed, for reproducible sampling.
    pub seed: u64,
}

/// A parsed program: the built circuit plus an optional `sample` directive.
#[derive(Debug)]
pub struct Program {
    /// The circuit built from the program's instructions.
    pub circuit: Circuit,
    /// The `sample SHOTS SEED` directive, if the program had one.
    pub sample: Option<SampleSpec>,
}

/// An instruction of the format, other than `qubits` and `sample`.
#[derive(Debug, Clone, Copy, PartialEq, Eq, Structural)]
pub enum Cmd {
    Id, H, X, Y, Z, S, T, Sdg, Tdg, Sx, Sxdg, Rx, Ry, Rz, P, U2, U3, Cnot, Cz, Cy, Ch, Cswap, Crz, Cp, Cu3,
    Swap, Toffoli, Mcx, Mcu3, Measure, Reset, If,
}

/// The instruction a word names, if any.
pub open spec fn cmd_of(t: Seq<char>) -> Option<Cmd> {
    if t == "id"@ { Some(Cmd::Id) }
    else if t == "h"@ { Some(Cmd::H) }
    else if t == "x"@ { Some(Cmd::X) }
    else if t == "y"@ { Some(Cmd::Y) }
    else if t == "z"@ { Some(Cmd::Z) }
    else if t == "s"@ { Some(Cmd::S) }
    else if t == "t"@ { Some(Cmd::T) }
    else if t == "sdg"@ { Some(Cmd::Sdg) }
    else if t == "tdg"@ { Some(Cmd::Tdg) }
    else if t == "sx"@ { Some(Cmd::Sx) }
    else if t == "sxdg"@ { Some(Cmd::Sxdg) }
    else if t == "rx"@ { Some(Cmd::Rx) }
    else if t == "ry"@ { Some(Cmd::Ry) }
    else if t == "rz"@ { Some(Cmd::Rz) }
    else if t == "p"@ { Some(Cmd::P) }
    else if t == "u2"@ { Some(Cmd::U2) }
    else if t == "u3"@ { Some(Cmd::U3) }
    else if t == "cnot"@ { Some(Cmd::Cnot) }
    else if t == "cz"@ { Some(Cmd::Cz) }
    else if t == "cy"@ { Some(Cmd::Cy) }
    else if t == "ch"@ { Some(Cmd::Ch) }
    else if t == "cswap"@ { Some(Cmd::Cswap) }
    else if t == "crz"@ { Some(Cmd::Crz) }
    else if t == "cp"@ { Some(Cmd::Cp) }
    else if t == "cu3"@ { Some(Cmd::Cu3) }
    else if t == "swap"@ { Some(Cmd::Swap) }
    else if t == "toffoli"@ { Some(Cmd::Toffoli) }
    else if t == "mcx"@ { Some(Cmd::Mcx) }
    else if t == "mcu3"@ { Some(Cmd::Mcu3) }
    else if t == "measure"@ { Some(Cmd::Measure) }
    else if t == "reset"@ { Some(Cmd::Reset) }
    else if t == "if"@ { Some(Cmd::If) }
    else { None }
}

/// What a single-qubit instruction without angles applies, and its label.
pub open spec fn fixed_gate(k: Cmd) -> Option<(GateV, Label)> {
    match k {
        Cmd::Id => Some((GateV::I, Label::I)),
        Cmd::H => Some((GateV::H, Label::H)),
        Cmd::X => Some((GateV::X, Label::X)),
        Cmd::Y => Some((GateV::Y, Label::Y)),
        Cmd::Z => Some((GateV::Z, Label::Z)),
        Cmd::S => Some((GateV::S, Label::S)),
        Cmd::T => Some((GateV::T, Label::T)),
        Cmd::Sdg => Some((GateV::Sdg, Label::SDG)),
        Cmd::Tdg => Some((GateV::Tdg, Label::TDG)),
        Cmd::Sx => Some((GateV::SX, Label::SX)),
        Cmd::Sxdg => Some((GateV::SXdg, Label::SXDG)),
        _ => None,
    }
}

/// What a one-angle single-qubit instruction applies, and its label.
pub open spec fn rotation(k: Cmd, a: AngleV) -> Option<(GateV, Label)> {
    match k {
        Cmd::Rx => Some((GateV::RX(a), Label::RX)),
        Cmd::Ry => Some((GateV::RY(a), Label::RY)),
        Cmd::Rz => Some((GateV::RZ(a), Label::RZ)),
        Cmd::P => Some((GateV::P(a), Label::P)),
        _ => None,
    }
}

/// What a two-qubit controlled instruction without angles applies to its
/// target, and its label.
pub open spec fn controlled_gate(k: Cmd) -> Option<(GateV, Label)> {
    match k {
        Cmd::Cnot => Some((GateV::X, Label::X)),
        Cmd::Cz => Some((GateV::Z, Label::Z)),
        Cmd::Cy => Some((GateV::Y, Label::Y)),
        Cmd::Ch => Some((GateV::H, Label::H)),
        _ => None,
    }
}

/// `` `cmd` expects k tokens, got n ``
pub open spec fn arity_msg(toks: Seq<Seq<char>>, k: nat) -> Seq<char> {
    "`"@ + toks[0] + "` expects "@ + decimal(k) + " tokens, got "@ + decimal(toks.len())
}

/// Token `idx` as a qubit index below `n`.
pub open spec fn qubit_spec(toks: Seq<Seq<char>>, idx: int, n: nat) -> Result<usize, Seq<char>> {
    if idx < 0 || idx >= toks.len() {
        Err("missing qubit argument"@)
    } else {
        match parse_usize_spec(toks[idx]) {
            None => Err("invalid qubit `"@ + toks[idx] + "`"@),
            Some(q) => if q >= n {
                Err("qubit "@ + decimal(q as nat) + " out of range (0.."@ + decimal(n) + ")"@)
            } else {
                Ok(q)
            },
        }
    }
}

/// An angle written as `t` on line `line`.
pub open spec fn angle_spec(t: Seq<char>, line: nat) -> Result<AngleV, Seq<char>> {
    match parse_expr_spec(t, Seq::empty()) {
        Ok(e) => Ok(AngleV { expr: e, text: t, stmt: None, line: Some(line as usize) }),
        Err(m) => Err(m),
    }
}

/// Token `i`, or nothing where the line is shorter.
pub open spec fn tok_or_empty(toks: Seq<Seq<char>>, i: int) -> Seq<char> {
    if 0 <= i < toks.len() {
        toks[i]
    } else {
        Seq::empty()
    }
}

/// The qubits of tokens `k..`, after `acc`.
pub open spec fn qubits_from(toks: Seq<Seq<char>>, k: int, acc: Seq<usize>, n: nat) -> Result<Seq<usize>, Seq<char>>
    decreases toks.len() - k,
{
    if k < 0 || k >= toks.len() {
        Ok(acc)
    } else {
        match qubit_spec(toks, k, n) {
            Err(e) => Err(e),
            Ok(q) => qubits_from(toks, k + 1, acc.push(q), n),
        }
    }
}

/// The first qubit of `qs` from `i` on that also occurs before it.
pub open spec fn first_repeat(qs: Seq<usize>, i: int) -> Option<usize>
    decreases qs.len() - i,
{
    if i < 0 || i >= qs.len() {
        None
    } else if qs.take(i).contains(qs[i]) {
        Some(qs[i])
    } else {
        first_repeat(qs, i + 1)
    }
}

/// The qubit list of a multi-controlled instruction from token `start`: the
/// controls, then the target last. At least one control, none repeated.
pub open spec fn controls_spec(toks: Seq<Seq<char>>, start: nat, n: nat) -> Result<(Seq<usize>, usize), Seq<char>> {
    if toks.len() < start + 2 {
        Err("`"@ + toks[0] + "` expects at least "@ + decimal(start + 2) + " tokens (one or more controls, then a target), got "@
            + decimal(toks.len()))
    } else {
        match qubits_from(toks, start as int, Seq::empty(), n) {
            Err(e) => Err(e),
            Ok(qs) => match first_repeat(qs, 0) {
                Some(q) => Err("qubit "@ + decimal(q as nat) + " is repeated; all must be distinct"@),
                None => Ok((qs.drop_last(), qs.last())),
            },
        }
    }
}

/// Whether an instruction can be guarded by `if`: a gate, not a
/// measurement, reset or another guard.
pub open spec fn guardable(t: Seq<char>) -> bool {
    match cmd_of(t) {
        Some(Cmd::Measure) | Some(Cmd::Reset) | Some(Cmd::If) => false,
        Some(_) => true,
        None => t != "qubits"@ && t != "sample"@,
    }
}

/// `c` with gates `ops` appended under a guard on the classical register
/// reading `v`; an empty block appends nothing.
pub open spec fn guard(c: CircuitV, v: u64, ops: Seq<OpV>) -> CircuitV {
    if ops.len() == 0 {
        c
    } else {
        with_op(c, OpV::Conditional { value: v, ops: gates_of(ops) })
    }
}

/// What the instruction `toks` (all but `qubits` and `sample`) on line `line`
/// does to `c`, or why it is refused.
pub open spec fn instr_spec(c: CircuitV, toks: Seq<Seq<char>>, line: nat) -> Result<CircuitV, Seq<char>>
    decreases toks.len(),
{
    let n = c.n_qubits as nat;
    if toks.len() == 0 {
        Err("empty instruction"@)
    } else {
        match cmd_of(toks[0]) {
            None => Err("unknown instruction `"@ + toks[0] + "`"@),
            Some(k) => if fixed_gate(k) is Some {
                if toks.len() != 2 {
                    Err(arity_msg(toks, 2))
                } else {
                    match qubit_spec(toks, 1, n) {
                        Err(e) => Err(e),
                        Ok(q) => Ok(with_single(c, fixed_gate(k).unwrap().0, q, fixed_gate(k).unwrap().1)),
                    }
                }
            } else if k == Cmd::Rx || k == Cmd::Ry || k == Cmd::Rz || k == Cmd::P {
                if toks.len() != 3 {
                    Err(arity_msg(toks, 3))
                } else {
                    match angle_spec(toks[1], line) {
                        Err(e) => Err(e),
                        Ok(a) => match qubit_spec(toks, 2, n) {
                            Err(e) => Err(e),
                            Ok(q) => Ok(with_single(c, rotation(k, a).unwrap().0, q, rotation(k, a).unwrap().1)),
                        },
                    }
                }
            } else if controlled_gate(k) is Some {
                if toks.len() != 3 {
                    Err(arity_msg(toks, 3))
                } else {
                    match qubit_spec(toks, 1, n) {
                        Err(e) => Err(e),
                        Ok(ctl) => match qubit_spec(toks, 2, n) {
                            Err(e) => Err(e),
                            Ok(t) => if ctl == t {
                                Err("control and target must differ"@)
                            } else {
                                Ok(with_controlled(c, controlled_gate(k).unwrap().0, ctl, t, controlled_gate(k).unwrap().1))
                            },
                        },
                    }
                }
            } else {
                match k {
                    Cmd::U2 => if toks.len() != 4 {
                        Err(arity_msg(toks, 4))
                    } else {
                        match (angle_spec(toks[1], line), angle_spec(toks[2], line)) {
                            (Err(e), _) => Err(e),
                            (Ok(_), Err(e)) => Err(e),
                            (Ok(a), Ok(b)) => match qubit_spec(toks, 3, n) {
                                Err(e) => Err(e),
                                Ok(q) => Ok(sp_u2(c, a, b, q)),
                            },
                        }
                    },
                    Cmd::U3 => if toks.len() != 5 {
                        Err(arity_msg(toks, 5))
                    } else {
                        match three_angles(toks, 1, line) {
                            Err(e) => Err(e),
                            Ok((a, b, d)) => match qubit_spec(toks, 4, n) {
                                Err(e) => Err(e),
                                Ok(q) => Ok(sp_u3(c, a, b, d, q)),
                            },
                        }
                    },
                    Cmd::Cswap => if toks.len() != 4 {
                        Err(arity_msg(toks, 4))
                    } else {
                        match three_qubits(toks, 1, n) {
                            Err(e) => Err(e),
                            Ok((ctl, a, b)) => if ctl == a || ctl == b || a == b {
                                Err("cswap qubits must be distinct"@)
                            } else {
                                Ok(sp_cswap(c, ctl, a, b))
                            },
                        }
                    },
                    Cmd::Crz | Cmd::Cp => if toks.len() != 4 {
                        Err(arity_msg(toks, 4))
                    } else {
                        match angle_spec(toks[1], line) {
                            Err(e) => Err(e),
                            Ok(a) => match two_qubits(toks, 2, n) {
                                Err(e) => Err(e),
                                Ok((ctl, t)) => if ctl == t {
                                    Err("control and target must differ"@)
                                } else if k == Cmd::Crz {
                                    Ok(with_controlled(c, GateV::RZ(a), ctl, t, Label::CRZ))
                                } else {
                                    Ok(with_controlled(c, GateV::P(a), ctl, t, Label::CP))
                                },
                            },
                        }
                    },
                    Cmd::Cu3 => if toks.len() != 6 {
                        Err(arity_msg(toks, 6))
                    } else {
                        match three_angles(toks, 1, line) {
                            Err(e) => Err(e),
                            Ok((a, b, d)) => match two_qubits(toks, 4, n) {
                                Err(e) => Err(e),
                                Ok((ctl, t)) => if ctl == t {
                                    Err("control and target must differ"@)
                                } else {
                                    Ok(with_controlled(c, GateV::U3(a, b, d), ctl, t, Label::CU3))
                                },
                            },
                        }
                    },
                    Cmd::Swap => if toks.len() != 3 {
                        Err(arity_msg(toks, 3))
                    } else {
                        match two_qubits(toks, 1, n) {
                            Err(e) => Err(e),
                            Ok((a, b)) => Ok(with_gate(c, GateOpV::Swap { a, b })),
                        }
                    },
                    Cmd::Toffoli => if toks.len() != 4 {
                        Err(arity_msg(toks, 4))
                    } else {
                        match three_qubits(toks, 1, n) {
                            Err(e) => Err(e),
                            Ok((c1, c2, t)) => if c1 == t || c2 == t {
                                Err("control and target must differ"@)
                            } else {
                                Ok(sp_mc(c, GateV::X, seq![c1, c2], t, Label::X))
                            },
                        }
                    },
                    Cmd::Mcx => match controls_spec(toks, 1, n) {
                        Err(e) => Err(e),
                        Ok((cs, t)) => Ok(sp_mc(c, GateV::X, cs, t, Label::X)),
                    },
                    Cmd::Mcu3 => match angle_spec(tok_or_empty(toks, 1), line) {
                        Err(e) => Err(e),
                        Ok(a) => match angle_spec(tok_or_empty(toks, 2), line) {
                            Err(e) => Err(e),
                            Ok(b) => match angle_spec(tok_or_empty(toks, 3), line) {
                                Err(e) => Err(e),
                                Ok(d) => match controls_spec(toks, 4, n) {
                                    Err(e) => Err(e),
                                    Ok((cs, t)) => Ok(sp_mc(c, GateV::U3(a, b, d), cs, t, Label::U)),
                                },
                            },
                        },
                    },
                    Cmd::Measure => if toks.len() != 2 {
                        Err(arity_msg(toks, 2))
                    } else {
                        match qubit_spec(toks, 1, n) {
                            Err(e) => Err(e),
                            Ok(q) => Ok(with_op(c, OpV::Measure { qubit: q, clbit: q })),
                        }
                    },
                    Cmd::Reset => if toks.len() != 2 {
                        Err(arity_msg(toks, 2))
                    } else {
                        match qubit_spec(toks, 1, n) {
                            Err(e) => Err(e),
                            Ok(q) => Ok(with_op(c, OpV::Reset { qubit: q })),
                        }
                    },
                    _ => if toks.len() < 3 {
                        Err("`if` expects a value then an instruction, got "@ + decimal(toks.len()) + " tokens"@)
                    } else {
                        match parse_u64_spec(toks[1]) {
                            None => Err("invalid conditional value `"@ + toks[1] + "`"@),
                            Some(v) => if !guardable(toks[2]) {
                                Err("only a gate may be conditional, not `"@ + toks[2] + "`"@)
                            } else {
                                match instr_spec(CircuitV { n_qubits: c.n_qubits, ops: Seq::empty() }, toks.skip(2), line) {
                                    Err(e) => Err(e),
                                    Ok(b) => Ok(guard(c, v, b.ops)),
                                }
                            },
                        }
                    },
                }
            },
        }
    }
}

/// Tokens `i`, `i + 1`, `i + 2` as angles.
pub open spec fn three_angles(toks: Seq<Seq<char>>, i: int, line: nat) -> Result<(AngleV, AngleV, AngleV), Seq<char>> {
    match angle_spec(toks[i], line) {
        Err(e) => Err(e),
        Ok(a) => match angle_spec(toks[i + 1], line) {
            Err(e) => Err(e),
            Ok(b) => match angle_spec(toks[i + 2], line) {
                Err(e) => Err(e),
                Ok(d) => Ok((a, b, d)),
            },
        },
    }
}

/// Tokens `i`, `i + 1` as qubits.
pub open spec fn two_qubits(toks: Seq<Seq<char>>, i: int, n: nat) -> Result<(usize, usize), Seq<char>> {
    match qubit_spec(toks, i, n) {
        Err(e) => Err(e),
        Ok(a) => match qubit_spec(toks, i + 1, n) {
            Err(e) => Err(e),
            Ok(b) => Ok((a, b)),
        },
    }
}

/// Tokens `i`, `i + 1`, `i + 2` as qubits.
pub open spec fn three_qubits(toks: Seq<Seq<char>>, i: int, n: nat) -> Result<(usize, usize, usize), Seq<char>> {
    match two_qubits(toks, i, n) {
        Err(e) => Err(e),
        Ok((a, b)) => match qubit_spec(toks, i + 2, n) {
            Err(e) => Err(e),
            Ok(d) => Ok((a, b, d)),
        },
    }
}


/// The content of a [`Program`].
pub struct ProgramV {
    pub circuit: CircuitV,
    pub sample: Option<SampleSpec>,
}

impl View for Program {
    type V = ProgramV;

    open spec fn view(&self) -> ProgramV {
        ProgramV { circuit: self.circuit@, sample: self.sample }
    }
}

/// The content of an optional circuit.
pub open spec fn opt_circuit(c: Option<Circuit>) -> Option<CircuitV> {
    match c {
        Some(x) => Some(x@),
        None => None,
    }
}

/// What the words `toks` of line `line` do to the circuit so far (none
/// before `qubits`) and the `sample` directive so far.
pub open spec fn line_spec(
    toks: Seq<Seq<char>>,
    circ: Option<CircuitV>,
    sample: Option<SampleSpec>,
    line: nat,
) -> Result<(Option<CircuitV>, Option<SampleSpec>), Seq<char>> {
    if toks[0] == "qubits"@ {
        if circ is Some {
            Err("`qubits` may only appear once"@)
        } else if toks.len() != 2 {
            Err(arity_msg(toks, 2))
        } else {
            match parse_usize_spec(toks[1]) {
                None => Err("invalid qubit count `"@ + toks[1] + "`"@),
                Some(n) => if n == 0 {
                    Err("qubit count must be >= 1"@)
                } else if n > MAX_QUBITS {
                    Err("qubit count "@ + decimal(n as nat) + " exceeds the maximum of "@ + decimal(MAX_QUBITS as nat))
                } else {
                    Ok((Some(CircuitV { n_qubits: n, ops: Seq::empty() }), sample))
                },
            }
        }
    } else {
        match circ {
            None => Err("first instruction must be `qubits N`"@),
            Some(c) => if toks[0] == "sample"@ {
                if sample is Some {
                    Err("`sample` may only appear once"@)
                } else if toks.len() != 3 {
                    Err(arity_msg(toks, 3))
                } else {
                    match parse_usize_spec(toks[1]) {
                        None => Err("invalid shot count `"@ + toks[1] + "`"@),
                        Some(shots) => match parse_u64_spec(toks[2]) {
                            None => Err("invalid seed `"@ + toks[2] + "`"@),
                            Some(seed) => Ok((circ, Some(SampleSpec { shots, seed }))),
                        },
                    }
                }
            } else {
                match instr_spec(c, toks, line) {
                    Err(e) => Err(e),
                    Ok(c2) => Ok((Some(c2), sample)),
                }
            },
        }
    }
}

/// A line with its comment removed: the text before the first `#`.
pub open spec fn before_hash(l: Seq<char>) -> Seq<char> {
    match first_index(l, '#') {
        Some(i) => l.take(i),
        None => l,
    }
}

/// The lines `lines[k..]` run from the given state; an error carries its
/// 1-based line number.
pub open spec fn lines_from(
    lines: Seq<Seq<char>>,
    k: int,
    circ: Option<CircuitV>,
    sample: Option<SampleSpec>,
) -> Result<(Option<CircuitV>, Option<SampleSpec>), (nat, Seq<char>)>
    decreases lines.len() - k,
{
    if k < 0 || k >= lines.len() {
        Ok((circ, sample))
    } else {
        let toks = words(before_hash(lines[k]));
        if toks.len() == 0 {
            lines_from(lines, k + 1, circ, sample)
        } else {
            match line_spec(toks, circ, sample, (k + 1) as nat) {
                Err(m) => Err(((k + 1) as nat, m)),
                Ok((c2, s2)) => lines_from(lines, k + 1, c2, s2),
            }
        }
    }
}

/// What parsing the program text `src` gives: the program, or the error's
/// line (if it has one) and message.
pub open spec fn program_spec(src: Seq<char>) -> Result<ProgramV, (Option<usize>, Seq<char>)> {
    match lines_from(lines_of(src), 0, None, None) {
        Err((l, m)) => Err((Some(l as usize), m)),
        Ok((None, _)) => Err((None, "program is empty (expected `qubits N`)"@)),
        Ok((Some(c), s)) => Ok(ProgramV { circuit: c, sample: s }),
    }
}


/// A guarded instruction appends gates only.
pub proof fn lemma_instr_gates(c: CircuitV, toks: Seq<Seq<char>>, line: nat)
    requires
        gates_only(c.ops),
        toks.len() > 0,
        guardable(toks[0]),
    ensures
        instr_spec(c, toks, line) matches Ok(c2) ==> gates_only(c2.ops),
{
    match instr_spec(c, toks, line) {
        Ok(c2) => {
            assert forall|i: int| 0 <= i < c2.ops.len() implies is_gate(#[trigger] c2.ops[i]) by {
                if i < c.ops.len() {
                    assert(is_gate(c.ops[i]));
                }
            }
        },
        Err(_) => {},
    }
}

/// Whether `t` reads `lit`.
fn reads(t: &[char], lit: &str) -> (r: bool)
    ensures
        r == (t@ == lit@),
{
    same(t, chars_of(lit).as_slice())
}

/// The instruction a word names.
pub fn cmd_named(t: &[char]) -> (r: Option<Cmd>)
    ensures
        r == cmd_of(t@),
{
    if reads(t, "id") { Some(Cmd::Id) }
    else if reads(t, "h") { Some(Cmd::H) }
    else if reads(t, "x") { Some(Cmd::X) }
    else if reads(t, "y") { Some(Cmd::Y) }
    else if reads(t, "z") { Some(Cmd::Z) }
    else if reads(t, "s") { Some(Cmd::S) }
    else if reads(t, "t") { Some(Cmd::T) }
    else if reads(t, "sdg") { Some(Cmd::Sdg) }
    else if reads(t, "tdg") { Some(Cmd::Tdg) }
    else if reads(t, "sx") { Some(Cmd::Sx) }
    else if reads(t, "sxdg") { Some(Cmd::Sxdg) }
    else if reads(t, "rx") { Some(Cmd::Rx) }
    else if reads(t, "ry") { Some(Cmd::Ry) }
    else if reads(t, "rz") { Some(Cmd::Rz) }
    else if reads(t, "p") { Some(Cmd::P) }
    else if reads(t, "u2") { Some(Cmd::U2) }
    else if reads(t, "u3") { Some(Cmd::U3) }
    else if reads(t, "cnot") { Some(Cmd::Cnot) }
    else if reads(t, "cz") { Some(Cmd::Cz) }
    else if reads(t, "cy") { Some(Cmd::Cy) }
    else if reads(t, "ch") { Some(Cmd::Ch) }
    else if reads(t, "cswap") { Some(Cmd::Cswap) }
    else if reads(t, "crz") { Some(Cmd::Crz) }
    else if reads(t, "cp") { Some(Cmd::Cp) }
    else if reads(t, "cu3") { Some(Cmd::Cu3) }
    else if reads(t, "swap") { Some(Cmd::Swap) }
    else if reads(t, "toffoli") { Some(Cmd::Toffoli) }
    else if reads(t, "mcx") { Some(Cmd::Mcx) }
    else if reads(t, "mcu3") { Some(Cmd::Mcu3) }
    else if reads(t, "measure") { Some(Cmd::Measure) }
    else if reads(t, "reset") { Some(Cmd::Reset) }
    else if reads(t, "if") { Some(Cmd::If) }
    else { None }
}

/// Require a line to have exactly `k` whitespace tokens.
pub fn expect_arity(toks: &[Vec<char>], k: usize) -> (r: Result<(), Vec<char>>)
    requires
        toks@.len() > 0,
    ensures
        r is Ok <==> toks@.len() == k,
        r matches Err(m) ==> m@ == arity_msg(names_of(toks@), k as nat),
{
    if toks.len() == k {
        Ok(())
    } else {
        let mut m = chars_of("`");
        push_all(&mut m, toks[0].as_slice());
        push_all(&mut m, chars_of("` expects ").as_slice());
        push_decimal(&mut m, k as u64);
        push_all(&mut m, chars_of(" tokens, got ").as_slice());
        push_decimal(&mut m, toks.len() as u64);
        Err(m)
    }
}

/// Parse token `idx` as a qubit index and bounds-check it against `n`.
pub fn parse_qubit(toks: &[Vec<char>], idx: usize, n: usize) -> (r: Result<usize, Vec<char>>)
    ensures
        match r {
            Ok(q) => qubit_spec(names_of(toks@), idx as int, n as nat) == Ok::<usize, Seq<char>>(q),
            Err(m) => qubit_spec(names_of(toks@), idx as int, n as nat) == Err::<usize, Seq<char>>(m@),
        },
{
    if idx >= toks.len() {
        return Err(chars_of("missing qubit argument"));
    }
    let t = toks[idx].as_slice();
    let q = match parse_usize(t) {
        Some(q) => q,
        None => return Err(cat3("invalid qubit `", t, "`")),
    };
    if q >= n {
        let mut m = chars_of("qubit ");
        push_decimal(&mut m, q as u64);
        push_all(&mut m, chars_of(" out of range (0..").as_slice());
        push_decimal(&mut m, n as u64);
        push_all(&mut m, chars_of(")").as_slice());
        return Err(m);
    }
    Ok(q)
}

/// Parse an angle written as `t` on line `line`: an arithmetic expression
/// over numbers and `pi`.
pub fn parse_angle(t: &[char], line: usize) -> (r: Result<Angle, Vec<char>>)
    ensures
        match r {
            Ok(a) => angle_spec(t@, line as nat) == Ok::<AngleV, Seq<char>>(a@),
            Err(m) => angle_spec(t@, line as nat) == Err::<AngleV, Seq<char>>(m@),
        },
{
    let no_names: Vec<Vec<char>> = Vec::new();
    proof {
        assert(no_names@.map_values(|n: Vec<char>| n@) =~= Seq::<Seq<char>>::empty());
    }
    let e = parse_expr(t, no_names.as_slice())?;
    Ok(Angle { expr: e, text: crate::qasm::copy_chars_of(t), stmt: None, line: Some(line) })
}

/// Token `i`, or nothing where the line is shorter.
fn tok_at(toks: &[Vec<char>], i: usize) -> (r: Vec<char>)
    ensures
        r@ == tok_or_empty(names_of(toks@), i as int),
{
    if i < toks.len() {
        crate::qasm::copy_chars_of(toks[i].as_slice())
    } else {
        Vec::new()
    }
}

/// Parse the qubit list of a multi-controlled instruction: tokens from
/// `start` to the end, where the last is the target and the rest are
/// controls. Requires at least one control and rejects a repeated qubit.
pub fn parse_control_list(toks: &[Vec<char>], start: usize, n: usize) -> (r: Result<(Vec<usize>, usize), Vec<char>>)
    requires
        toks@.len() > 0,
        start + 2 <= usize::MAX,
    ensures
        match r {
            Ok((cs, t)) => controls_spec(names_of(toks@), start as nat, n as nat)
                == Ok::<(Seq<usize>, usize), Seq<char>>((cs@, t)),
            Err(m) => controls_spec(names_of(toks@), start as nat, n as nat) == Err::<(Seq<usize>, usize), Seq<char>>(m@),
        },
{
    let ghost tv = names_of(toks@);
    if toks.len() < start + 2 {
        let mut m = chars_of("`");
        push_all(&mut m, toks[0].as_slice());
        push_all(&mut m, chars_of("` expects at least ").as_slice());
        push_decimal(&mut m, (start + 2) as u64);
        push_all(&mut m, chars_of(" tokens (one or more controls, then a target), got ").as_slice());
        push_decimal(&mut m, toks.len() as u64);
        return Err(m);
    }
    let mut qs: Vec<usize> = Vec::new();
    let mut k = start;
    while k < toks.len()
        invariant
            start <= k <= toks@.len(),
            toks@.len() >= start + 2,
            tv == names_of(toks@),
            qs@.len() == k - start,
            qubits_from(tv, start as int, Seq::empty(), n as nat) == qubits_from(tv, k as int, qs@, n as nat),
        decreases toks@.len() - k,
    {
        let q = parse_qubit(toks, k, n)?;
        qs.push(q);
        k = k + 1;
    }
    let mut i: usize = 0;
    while i < qs.len()
        invariant
            i <= qs@.len(),
            qs@.len() >= 2,
            toks@.len() >= start + 2,
            tv == names_of(toks@),
            qubits_from(tv, start as int, Seq::empty(), n as nat) == Ok::<Seq<usize>, Seq<char>>(qs@),
            first_repeat(qs@, 0) == first_repeat(qs@, i as int),
        decreases qs@.len() - i,
    {
        let mut j: usize = 0;
        while j < i
            invariant
                j <= i < qs@.len(),
                forall|m: int| 0 <= m < j ==> qs@[m] != qs@[i as int],
                qs@.len() >= 2,
                toks@.len() >= start + 2,
                tv == names_of(toks@),
                qubits_from(tv, start as int, Seq::empty(), n as nat) == Ok::<Seq<usize>, Seq<char>>(qs@),
                first_repeat(qs@, 0) == first_repeat(qs@, i as int),
            decreases i - j,
        {
            if qs[j] == qs[i] {
                proof {
                    assert(qs@.take(i as int)[j as int] == qs@[i as int]);
                }
                let mut m = chars_of("qubit ");
                push_decimal(&mut m, qs[i] as u64);
                push_all(&mut m, chars_of(" is repeated; all must be distinct").as_slice());
                return Err(m);
            }
            j = j + 1;
        }
        proof {
            assert(!qs@.take(i as int).contains(qs@[i as int]));
        }
        i = i + 1;
    }
    let target = qs[qs.len() - 1];
    let ghost all = qs@;
    qs.pop();
    proof {
        assert(qs@ == all.drop_last());
    }
    Ok((qs, target))
}

/// Append a fixed single-qubit gate.
fn apply_fixed(c: &mut Circuit, k: Cmd, q: usize)
    requires
        fixed_gate(k) is Some,
    ensures
        final(c)@ == with_single(old(c)@, fixed_gate(k).unwrap().0, q, fixed_gate(k).unwrap().1),
{
    match k {
        Cmd::Id => { c.id(q); },
        Cmd::H => { c.h(q); },
        Cmd::X => { c.x(q); },
        Cmd::Y => { c.y(q); },
        Cmd::Z => { c.z(q); },
        Cmd::S => { c.s(q); },
        Cmd::T => { c.t(q); },
        Cmd::Sdg => { c.sdg(q); },
        Cmd::Tdg => { c.tdg(q); },
        Cmd::Sx => { c.sx(q); },
        _ => { c.sxdg(q); },
    }
}

/// Append a one-angle single-qubit gate.
fn apply_rotation(c: &mut Circuit, k: Cmd, a: Angle, q: usize)
    requires
        rotation(k, a@) is Some,
    ensures
        final(c)@ == with_single(old(c)@, rotation(k, a@).unwrap().0, q, rotation(k, a@).unwrap().1),
{
    match k {
        Cmd::Rx => { c.rx(a, q); },
        Cmd::Ry => { c.ry(a, q); },
        Cmd::Rz => { c.rz(a, q); },
        _ => { c.p(a, q); },
    }
}

/// Append a two-qubit controlled gate without angles.
fn apply_controlled(c: &mut Circuit, k: Cmd, ctl: usize, t: usize)
    requires
        controlled_gate(k) is Some,
    ensures
        final(c)@ == with_controlled(old(c)@, controlled_gate(k).unwrap().0, ctl, t, controlled_gate(k).unwrap().1),
{
    match k {
        Cmd::Cnot => { c.cnot(ctl, t); },
        Cmd::Cz => { c.cz(ctl, t); },
        Cmd::Cy => { c.cy(ctl, t); },
        _ => { c.ch(ctl, t); },
    }
}

/// Whether an instruction may be guarded by `if`.
fn can_guard(t: &[char]) -> (r: bool)
    ensures
        r == guardable(t@),
{
    match cmd_named(t) {
        Some(Cmd::Measure) | Some(Cmd::Reset) | Some(Cmd::If) => false,
        Some(_) => true,
        None => !reads(t, "qubits") && !reads(t, "sample"),
    }
}

/// The tokens from `k` on.
fn copy_tail(toks: &[Vec<char>], k: usize) -> (r: Vec<Vec<char>>)
    requires
        k <= toks@.len(),
    ensures
        names_of(r@) == names_of(toks@).skip(k as int),
{
    let mut out: Vec<Vec<char>> = Vec::new();
    let mut i = k;
    while i < toks.len()
        invariant
            k <= i <= toks@.len(),
            names_of(out@) == names_of(toks@).subrange(k as int, i as int),
        decreases toks@.len() - i,
    {
        let ghost before = names_of(out@);
        out.push(crate::qasm::copy_chars_of(toks[i].as_slice()));
        proof {
            assert(names_of(out@) =~= before.push(toks@[i as int]@));
            assert(names_of(toks@).subrange(k as int, i + 1) =~= names_of(toks@).subrange(k as int, i as int).push(toks@[i as int]@));
        }
        i = i + 1;
    }
    proof {
        assert(names_of(toks@).subrange(k as int, toks@.len() as int) =~= names_of(toks@).skip(k as int));
    }
    out
}


/// Apply one instruction (any but `qubits` and `sample`) on line `line`.
pub fn apply_instr(c: &mut Circuit, toks: &[Vec<char>], line: usize) -> (r: Result<(), Vec<char>>)
    ensures
        match r {
            Ok(()) => instr_spec(old(c)@, names_of(toks@), line as nat) == Ok::<CircuitV, Seq<char>>(final(c)@),
            Err(m) => instr_spec(old(c)@, names_of(toks@), line as nat) == Err::<CircuitV, Seq<char>>(m@),
        },
    decreases toks@.len(),
{
    let ghost tv = names_of(toks@);
    if toks.len() == 0 {
        return Err(chars_of("empty instruction"));
    }
    proof {
        assert(tv[0] == toks@[0]@);
        assert forall|i: int| 0 <= i < toks@.len() implies #[trigger] tv[i] == toks@[i]@ by {}
    }
    let n = c.n_qubits();
    let k = match cmd_named(toks[0].as_slice()) {
        Some(k) => k,
        None => return Err(cat3("unknown instruction `", toks[0].as_slice(), "`")),
    };
    match k {
        Cmd::Id | Cmd::H | Cmd::X | Cmd::Y | Cmd::Z | Cmd::S | Cmd::T | Cmd::Sdg | Cmd::Tdg | Cmd::Sx | Cmd::Sxdg => {
            expect_arity(toks, 2)?;
            let q = parse_qubit(toks, 1, n)?;
            apply_fixed(c, k, q);
        },
        Cmd::Rx | Cmd::Ry | Cmd::Rz | Cmd::P => {
            expect_arity(toks, 3)?;
            let a = parse_angle(toks[1].as_slice(), line)?;
            let q = parse_qubit(toks, 2, n)?;
            apply_rotation(c, k, a, q);
        },
        Cmd::Cnot | Cmd::Cz | Cmd::Cy | Cmd::Ch => {
            expect_arity(toks, 3)?;
            let ctl = parse_qubit(toks, 1, n)?;
            let t = parse_qubit(toks, 2, n)?;
            if ctl == t {
                return Err(chars_of("control and target must differ"));
            }
            apply_controlled(c, k, ctl, t);
        },
        Cmd::U2 => {
            expect_arity(toks, 4)?;
            let a = parse_angle(toks[1].as_slice(), line)?;
            let b = parse_angle(toks[2].as_slice(), line)?;
            let q = parse_qubit(toks, 3, n)?;
            c.u2(a, b, q);
        },
        Cmd::U3 => {
            expect_arity(toks, 5)?;
            let a = parse_angle(toks[1].as_slice(), line)?;
            let b = parse_angle(toks[2].as_slice(), line)?;
            let d = parse_angle(toks[3].as_slice(), line)?;
            let q = parse_qubit(toks, 4, n)?;
            c.u3(a, b, d, q);
        },
        Cmd::Cswap => {
            expect_arity(toks, 4)?;
            let ctl = parse_qubit(toks, 1, n)?;
            let a = parse_qubit(toks, 2, n)?;
            let b = parse_qubit(toks, 3, n)?;
            if ctl == a || ctl == b || a == b {
                return Err(chars_of("cswap qubits must be distinct"));
            }
            c.cswap(ctl, a, b);
        },
        Cmd::Crz | Cmd::Cp => {
            expect_arity(toks, 4)?;
            let a = parse_angle(toks[1].as_slice(), line)?;
            let ctl = parse_qubit(toks, 2, n)?;
            let t = parse_qubit(toks, 3, n)?;
            if ctl == t {
                return Err(chars_of("control and target must differ"));
            }
            match k {
                Cmd::Crz => { c.crz(a, ctl, t); },
                _ => { c.cp(a, ctl, t); },
            }
        },
        Cmd::Cu3 => {
            expect_arity(toks, 6)?;
            let a = parse_angle(toks[1].as_slice(), line)?;
            let b = parse_angle(toks[2].as_slice(), line)?;
            let d = parse_angle(toks[3].as_slice(), line)?;
            let ctl = parse_qubit(toks, 4, n)?;
            let t = parse_qubit(toks, 5, n)?;
            if ctl == t {
                return Err(chars_of("control and target must differ"));
            }
            c.cu3(a, b, d, ctl, t);
        },
        Cmd::Swap => {
            expect_arity(toks, 3)?;
            let a = parse_qubit(toks, 1, n)?;
            let b = parse_qubit(toks, 2, n)?;
            c.swap(a, b);
        },
        Cmd::Toffoli => {
            expect_arity(toks, 4)?;
            let c1 = parse_qubit(toks, 1, n)?;
            let c2 = parse_qubit(toks, 2, n)?;
            let t = parse_qubit(toks, 3, n)?;
            if c1 == t || c2 == t {
                return Err(chars_of("control and target must differ"));
            }
            c.toffoli(c1, c2, t);
        },
        Cmd::Mcx => {
            let (cs, t) = parse_control_list(toks, 1, n)?;
            c.mcx(cs.as_slice(), t);
        },
        Cmd::Mcu3 => {
            let a = parse_angle(tok_at(toks, 1).as_slice(), line)?;
            let b = parse_angle(tok_at(toks, 2).as_slice(), line)?;
            let d = parse_angle(tok_at(toks, 3).as_slice(), line)?;
            let (cs, t) = parse_control_list(toks, 4, n)?;
            c.mcu(Gate::U3(a, b, d), cs.as_slice(), t);
        },
        Cmd::Measure => {
            expect_arity(toks, 2)?;
            let q = parse_qubit(toks, 1, n)?;
            c.measure(q);
        },
        Cmd::Reset => {
            expect_arity(toks, 2)?;
            let q = parse_qubit(toks, 1, n)?;
            c.reset(q);
        },
        Cmd::If => {
            if toks.len() < 3 {
                let mut m = chars_of("`if` expects a value then an instruction, got ");
                push_decimal(&mut m, toks.len() as u64);
                push_all(&mut m, chars_of(" tokens").as_slice());
                return Err(m);
            }
            let v = match parse_u64(toks[1].as_slice()) {
                Some(v) => v,
                None => return Err(cat3("invalid conditional value `", toks[1].as_slice(), "`")),
            };
            if !can_guard(toks[2].as_slice()) {
                return Err(cat3("only a gate may be conditional, not `", toks[2].as_slice(), "`"));
            }
            let inner = copy_tail(toks, 2);
            let mut block = Circuit::new(n);
            proof {
                assert(names_of(inner@)[0] == tv[2]);
                lemma_instr_gates(block@, names_of(inner@), line as nat);
            }
            apply_instr(&mut block, inner.as_slice(), line)?;
            if block.ops().len() > 0 {
                c.if_classical_eq(v, block);
            }
        },
    }
    Ok(())
}

/// Apply the words `toks` of line `line` to the program so far.
fn apply_line(
    toks: &[Vec<char>],
    circ: &mut Option<Circuit>,
    sample: &mut Option<SampleSpec>,
    line: usize,
) -> (r: Result<(), Vec<char>>)
    requires
        toks@.len() > 0,
    ensures
        match r {
            Ok(()) => line_spec(names_of(toks@), opt_circuit(*old(circ)), *old(sample), line as nat)
                == Ok::<(Option<CircuitV>, Option<SampleSpec>), Seq<char>>((opt_circuit(*final(circ)), *final(sample))),
            Err(m) => line_spec(names_of(toks@), opt_circuit(*old(circ)), *old(sample), line as nat)
                == Err::<(Option<CircuitV>, Option<SampleSpec>), Seq<char>>(m@),
        },
{
    let ghost tv = names_of(toks@);
    proof {
        assert forall|i: int| 0 <= i < toks@.len() implies #[trigger] tv[i] == toks@[i]@ by {}
    }
    if reads(toks[0].as_slice(), "qubits") {
        if circ.is_some() {
            return Err(chars_of("`qubits` may only appear once"));
        }
        expect_arity(toks, 2)?;
        let n = match parse_usize(toks[1].as_slice()) {
            Some(n) => n,
            None => return Err(cat3("invalid qubit count `", toks[1].as_slice(), "`")),
        };
        if n == 0 {
            return Err(chars_of("qubit count must be >= 1"));
        }
        if n > MAX_QUBITS {
            let mut m = chars_of("qubit count ");
            push_decimal(&mut m, n as u64);
            push_all(&mut m, chars_of(" exceeds the maximum of ").as_slice());
            push_decimal(&mut m, MAX_QUBITS as u64);
            return Err(m);
        }
        *circ = Some(Circuit::new(n));
        return Ok(());
    }
    let mut c = match circ.take() {
        Some(c) => c,
        None => return Err(chars_of("first instruction must be `qubits N`")),
    };
    if reads(toks[0].as_slice(), "sample") {
        if sample.is_some() {
            return Err(chars_of("`sample` may only appear once"));
        }
        expect_arity(toks, 3)?;
        let shots = match parse_usize(toks[1].as_slice()) {
            Some(v) => v,
            None => return Err(cat3("invalid shot count `", toks[1].as_slice(), "`")),
        };
        let seed = match parse_u64(toks[2].as_slice()) {
            Some(v) => v,
            None => return Err(cat3("invalid seed `", toks[2].as_slice(), "`")),
        };
        *sample = Some(SampleSpec { shots, seed });
        *circ = Some(c);
        return Ok(());
    }
    apply_instr(&mut c, toks, line)?;
    *circ = Some(c);
    Ok(())
}

/// A line with its `#` comment removed.
fn strip_hash(l: &[char]) -> (r: Vec<char>)
    ensures
        r@ == before_hash(l@),
{
    match crate::text::find(l, '#') {
        Some(i) => {
            let r = crate::text::copy_range(l, 0, i);
            proof {
                assert(r@ == l@.take(i as int));
            }
            r
        },
        None => crate::qasm::copy_chars_of(l),
    }
}

/// Parse a program from its textual form, or return a [`ParseError`] tagged
/// with the offending line number.
///
/// Angles are checked for their syntax and their names, and kept as
/// expressions: their numeric values are not computed here. An angle whose
/// value is not a finite number, such as `1/0`, is accepted by this function;
/// a caller that evaluates the angles reports it then.
pub fn parse(src: &str) -> (r: Result<Program, ParseError>)
    ensures
        match r {
            Ok(p) => program_spec(src@) == Ok::<ProgramV, (Option<usize>, Seq<char>)>(p@),
            Err(e) => program_spec(src@) == Err::<ProgramV, (Option<usize>, Seq<char>)>((e.line, e.message@)),
        },
{
    let chars = chars_of(src);
    let ls = lines(chars.as_slice());
    let ghost lv = ls@.map_values(|p: Vec<char>| p@);
    let mut circ: Option<Circuit> = None;
    let mut sample: Option<SampleSpec> = None;
    let mut k: usize = 0;
    while k < ls.len()
        invariant
            k <= ls@.len(),
            lv == ls@.map_values(|p: Vec<char>| p@),
            lv == lines_of(src@),
            lines_from(lv, 0, None, None) == lines_from(lv, k as int, opt_circuit(circ), sample),
        decreases ls@.len() - k,
    {
        let code = strip_hash(ls[k].as_slice());
        let toks = split_words(code.as_slice());
        proof {
            assert(lv[k as int] == ls@[k as int]@);
            assert(names_of(toks@) == toks@.map_values(|p: Vec<char>| p@));
        }
        if toks.len() > 0 {
            match apply_line(toks.as_slice(), &mut circ, &mut sample, k + 1) {
                Ok(()) => {},
                Err(m) => return Err(ParseError::at_line(k + 1, string_of(m.as_slice()))),
            }
        }
        k = k + 1;
    }
    match circ {
        Some(c) => Ok(Program { circuit: c, sample }),
        None => Err(ParseError::new(string_of(chars_of("program is empty (expected `qubits N`)").as_slice()))),
    }
}

} // verus!
