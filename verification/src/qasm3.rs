//! OpenQASM 3 support, by normalizing into the OpenQASM 2 subset.
//!
//! The two languages differ in how they declare things far more than in what
//! they do, so the constructs that differ are rewritten and the result handed
//! to the OpenQASM 2 importer:
//!
//! | OpenQASM 3              | rewritten to              |
//! |-------------------------|---------------------------|
//! | `qubit[n] q;`           | `qreg q[n];`              |
//! | `qubit q;`              | `qreg q[1];`              |
//! | `bit[n] c;`             | `creg c[n];`              |
//! | `c[i] = measure q[j];`  | `measure q[j] -> c[i];`   |
//! | `if (c == v) { a; b; }` | `if(c==v) a; if(c==v) b;` |
//!
//! Guarding each statement of a block is the same as guarding the block,
//! since a block holds only gates. `for`, `while`, `def`, `let`, timing and
//! the other constructs with no OpenQASM 2 counterpart are reported.
use vstd::prelude::*;
use crate::circuit::{Circuit, CircuitV};
use crate::error::ParseError;
use crate::qasm::{
    cat3, copy_chars_of, keep_trimmed, keyword, keyword_of, qasm_spec, split_statements, statements_of, strip_comments,
    strip_from, trim_nonempty,
};
use crate::text::{
    chars_of, copy_range, find, first_index, last_index, lines, lines_of, push_all, rfind, same, split_char,
    split_on, split_once_chars, starts_with, strip_prefix, strip_prefix_chars, string_of, trim, trim_vec,
};

verus! {

/// The version header of the first line (comments stripped) that has one:
/// whether it names version 3.
pub open spec fn version3_from(lines: Seq<Seq<char>>, k: int) -> bool
    decreases lines.len() - k,
{
    if k < 0 || k >= lines.len() {
        false
    } else {
        match strip_prefix(trim(lines[k]), "OPENQASM"@) {
            Some(rest) => trim(rest).len() > 0 && trim(rest)[0] == '3',
            None => version3_from(lines, k + 1),
        }
    }
}

/// Whether `src` is OpenQASM 3 by its version header.
pub open spec fn is_openqasm3_spec(src: Seq<char>) -> bool {
    version3_from(lines_of(strip_from(src, 0, false)), 0)
}

/// Whether `src` looks like OpenQASM 3 rather than 2, by its version header.
/// Comments are stripped first, so a comment line beginning with `OPENQASM`
/// does not decide.
pub fn is_openqasm3(src: &str) -> (r: bool)
    ensures
        r == is_openqasm3_spec(src@),
{
    let clean = strip_comments(chars_of(src).as_slice());
    let ls = lines(clean.as_slice());
    let ghost lv = ls@.map_values(|p: Vec<char>| p@);
    let mut k: usize = 0;
    while k < ls.len()
        invariant
            k <= ls@.len(),
            lv == ls@.map_values(|p: Vec<char>| p@),
            is_openqasm3_spec(src@) == version3_from(lv, k as int),
        decreases ls@.len() - k,
    {
        let t = trim_vec(ls[k].as_slice());
        proof {
            assert(lv[k as int] == ls@[k as int]@);
        }
        match strip_prefix_chars(t.as_slice(), "OPENQASM") {
            Some(rest) => {
                let r = trim_vec(rest.as_slice());
                return r.len() > 0 && r[0] == '3';
            },
            None => {},
        }
        k = k + 1;
    }
    false
}

/// Whether a statement starts a construct with no OpenQASM 2 counterpart.
pub open spec fn unsupported3(head: Seq<char>) -> bool {
    head == "for"@ || head == "while"@ || head == "def"@ || head == "defcal"@ || head == "let"@ || head == "cal"@
        || head == "extern"@ || head == "duration"@ || head == "stretch"@ || head == "delay"@ || head == "box"@
        || head == "else"@
}

/// `from[n] name` as `to name[n]`; an unsized `from name` as `to name[1]`.
pub open spec fn declaration_spec(stmt: Seq<char>, from: Seq<char>, to: Seq<char>) -> Result<Seq<char>, Seq<char>> {
    match strip_prefix(stmt, from) {
        None => Err("malformed declaration `"@ + stmt + "`"@),
        Some(r0) => {
            let rest = trim(r0);
            let sized = rest.len() > 0 && rest[0] == '[';
            let after = rest.drop_first();
            if sized && first_index(after, ']') is None {
                Err("declaration needs `]`: `"@ + stmt + "`"@)
            } else {
                let (size, name) = if sized {
                    let close = first_index(after, ']')->0;
                    (trim(after.take(close)), trim(after.skip(close + 1)))
                } else {
                    ("1"@, rest)
                };
                if name.len() == 0 {
                    Err("declaration needs a name: `"@ + stmt + "`"@)
                } else {
                    Ok(to + " "@ + name + "["@ + size + "]"@)
                }
            }
        },
    }
}

/// `c[i] = measure q[j]` as `measure q[j] -> c[i]`, if that is what `stmt`
/// is.
pub open spec fn measurement_spec(stmt: Seq<char>) -> Option<Seq<char>> {
    match first_index(stmt, '=') {
        None => None,
        Some(k) => {
            let target = stmt.take(k);
            let rest = stmt.skip(k + 1);
            let source = trim(match strip_prefix(rest, " "@) {
                Some(r) => r,
                None => rest,
            });
            match strip_prefix(source, "measure"@) {
                None => None,
                Some(s) => Some("measure "@ + trim(s) + " -> "@ + trim(target)),
            }
        },
    }
}

/// `if (cond) { a; b; }` as one guarded statement per statement of the block.
pub open spec fn conditional_spec(stmt: Seq<char>) -> Result<Seq<Seq<char>>, Seq<char>> {
    match first_index(stmt, '{') {
        None => Err("conditional needs a `{ ... }` block: `"@ + stmt + "`"@),
        Some(open) => match last_index(stmt, '}') {
            None => Err("conditional needs `}`: `"@ + stmt + "`"@),
            Some(close) => if close < open {
                Err("malformed conditional `"@ + stmt + "`"@)
            } else {
                let condition = trim(stmt.take(open));
                let inner = trim_nonempty(split_on(stmt.subrange(open + 1, close), ';'));
                if inner.len() == 0 {
                    Err("conditional has no statements: `"@ + stmt + "`"@)
                } else {
                    Ok(inner.map_values(|s: Seq<char>| condition + " "@ + s))
                }
            },
        },
    }
}

/// The OpenQASM 2 statements one OpenQASM 3 statement becomes.
pub open spec fn rewrite_spec(stmt: Seq<char>) -> Result<Seq<Seq<char>>, Seq<char>> {
    let head = keyword_of(stmt);
    if unsupported3(head) {
        Err("unsupported OpenQASM 3 construct `"@ + head
            + "`; this engine covers the subset that maps onto OpenQASM 2"@)
    } else if head == "qubit"@ {
        match declaration_spec(stmt, "qubit"@, "qreg"@) {
            Ok(d) => Ok(seq![d]),
            Err(e) => Err(e),
        }
    } else if head == "bit"@ {
        match declaration_spec(stmt, "bit"@, "creg"@) {
            Ok(d) => Ok(seq![d]),
            Err(e) => Err(e),
        }
    } else if head == "if"@ {
        conditional_spec(stmt)
    } else {
        match measurement_spec(stmt) {
            Some(m) => Ok(seq![m]),
            None => Ok(seq![stmt]),
        }
    }
}

/// Each of `pieces`, followed by `;` and a newline.
pub open spec fn terminated(pieces: Seq<Seq<char>>) -> Seq<char>
    decreases pieces.len(),
{
    if pieces.len() == 0 {
        Seq::empty()
    } else {
        terminated(pieces.drop_last()) + pieces.last() + ";\n"@
    }
}

/// The rewritten statements of `stmts[k..]`, after `acc`; a version header
/// is dropped, the normalized program carrying its own.
pub open spec fn normalize_from(stmts: Seq<Seq<char>>, k: int, acc: Seq<char>) -> Result<Seq<char>, Seq<char>>
    decreases stmts.len() - k,
{
    if k < 0 || k >= stmts.len() {
        Ok(acc)
    } else if strip_prefix(stmts[k], "OPENQASM"@) is Some {
        normalize_from(stmts, k + 1, acc)
    } else {
        match rewrite_spec(stmts[k]) {
            Err(e) => Err(e),
            Ok(r) => normalize_from(stmts, k + 1, acc + terminated(r)),
        }
    }
}

/// The OpenQASM 2 program an OpenQASM 3 source normalizes to.
pub open spec fn normalize_spec(src: Seq<char>) -> Result<Seq<char>, Seq<char>> {
    match statements_of(strip_from(src, 0, false)) {
        Err(e) => Err(e),
        Ok(stmts) => normalize_from(stmts, 0, "OPENQASM 2.0;\n"@),
    }
}

/// What importing an OpenQASM 3 source gives.
pub open spec fn qasm3_spec(src: Seq<char>) -> Result<CircuitV, Seq<char>> {
    match normalize_spec(src) {
        Err(e) => Err(e),
        Ok(t) => qasm_spec(t),
    }
}

/// Rewrite `from[n] name` as `to name[n]`.
pub fn declaration(stmt: &[char], from: &str, to: &str) -> (r: Result<Vec<char>, Vec<char>>)
    ensures
        match r {
            Ok(d) => declaration_spec(stmt@, from@, to@) == Ok::<Seq<char>, Seq<char>>(d@),
            Err(m) => declaration_spec(stmt@, from@, to@) == Err::<Seq<char>, Seq<char>>(m@),
        },
{
    let r0 = match strip_prefix_chars(stmt, from) {
        Some(r) => r,
        None => return Err(cat3("malformed declaration `", stmt, "`")),
    };
    let rest = trim_vec(r0.as_slice());
    let sized = rest.len() > 0 && rest[0] == '[';
    let (size, name) = if sized {
        let after = copy_range(rest.as_slice(), 1, rest.len());
        proof {
            assert(after@ =~= rest@.drop_first());
        }
        let close = match find(after.as_slice(), ']') {
            Some(c) => c,
            None => return Err(cat3("declaration needs `]`: `", stmt, "`")),
        };
        let a = copy_range(after.as_slice(), 0, close);
        let b = copy_range(after.as_slice(), close + 1, after.len());
        proof {
            assert(a@ == after@.take(close as int));
            assert(b@ == after@.skip(close + 1));
        }
        (trim_vec(a.as_slice()), trim_vec(b.as_slice()))
    } else {
        (chars_of("1"), rest)
    };
    if name.len() == 0 {
        return Err(cat3("declaration needs a name: `", stmt, "`"));
    }
    let mut out = chars_of(to);
    push_all(&mut out, chars_of(" ").as_slice());
    push_all(&mut out, name.as_slice());
    push_all(&mut out, chars_of("[").as_slice());
    push_all(&mut out, size.as_slice());
    push_all(&mut out, chars_of("]").as_slice());
    Ok(out)
}

/// Rewrite `c[i] = measure q[j]` as `measure q[j] -> c[i]`, if that is what
/// `stmt` is.
pub fn measurement_assignment(stmt: &[char]) -> (r: Option<Vec<char>>)
    ensures
        match r {
            Some(m) => measurement_spec(stmt@) == Some(m@),
            None => measurement_spec(stmt@) is None,
        },
{
    let k = match find(stmt, '=') {
        Some(k) => k,
        None => return None,
    };
    let n = stmt.len();
    let target = copy_range(stmt, 0, k);
    let rest = copy_range(stmt, k + 1, n);
    proof {
        assert(target@ == stmt@.take(k as int));
        assert(rest@ == stmt@.skip(k + 1));
    }
    let unspaced = match strip_prefix_chars(rest.as_slice(), " ") {
        Some(r) => r,
        None => rest,
    };
    let source = trim_vec(unspaced.as_slice());
    let s = match strip_prefix_chars(source.as_slice(), "measure") {
        Some(s) => s,
        None => return None,
    };
    let mut out = chars_of("measure ");
    push_all(&mut out, trim_vec(s.as_slice()).as_slice());
    push_all(&mut out, chars_of(" -> ").as_slice());
    push_all(&mut out, trim_vec(target.as_slice()).as_slice());
    Some(out)
}

/// Rewrite `if (cond) { a; b; }` as one guarded statement per statement of
/// the block.
pub fn conditional(stmt: &[char]) -> (r: Result<Vec<Vec<char>>, Vec<char>>)
    ensures
        match r {
            Ok(v) => conditional_spec(stmt@) == Ok::<Seq<Seq<char>>, Seq<char>>(v@.map_values(|p: Vec<char>| p@)),
            Err(m) => conditional_spec(stmt@) == Err::<Seq<Seq<char>>, Seq<char>>(m@),
        },
{
    let open = match find(stmt, '{') {
        Some(o) => o,
        None => return Err(cat3("conditional needs a `{ ... }` block: `", stmt, "`")),
    };
    let close = match rfind(stmt, '}') {
        Some(c) => c,
        None => return Err(cat3("conditional needs `}`: `", stmt, "`")),
    };
    if close < open {
        return Err(cat3("malformed conditional `", stmt, "`"));
    }
    let before = copy_range(stmt, 0, open);
    proof {
        assert(before@ == stmt@.take(open as int));
    }
    let condition = trim_vec(before.as_slice());
    let body = copy_range(stmt, open + 1, close);
    let inner = keep_trimmed(&split_char(body.as_slice(), ';'));
    if inner.len() == 0 {
        return Err(cat3("conditional has no statements: `", stmt, "`"));
    }
    let ghost iv = inner@.map_values(|p: Vec<char>| p@);
    let ghost want = iv.map_values(|s: Seq<char>| condition@ + " "@ + s);
    let mut out: Vec<Vec<char>> = Vec::new();
    let mut k: usize = 0;
    while k < inner.len()
        invariant
            k <= inner@.len(),
            iv == inner@.map_values(|p: Vec<char>| p@),
            want == iv.map_values(|s: Seq<char>| condition@ + " "@ + s),
            out@.map_values(|p: Vec<char>| p@) == want.take(k as int),
        decreases inner@.len() - k,
    {
        let mut g = copy_chars_of(condition.as_slice());
        push_all(&mut g, chars_of(" ").as_slice());
        push_all(&mut g, inner[k].as_slice());
        let ghost before_out = out@.map_values(|p: Vec<char>| p@);
        proof {
            assert(g@ == want[k as int]);
        }
        out.push(g);
        proof {
            assert(out@.map_values(|p: Vec<char>| p@) =~= before_out.push(want[k as int]));
            assert(want.take(k + 1) =~= want.take(k as int).push(want[k as int]));
        }
        k = k + 1;
    }
    proof {
        assert(want.take(inner@.len() as int) =~= want);
    }
    Ok(out)
}

/// Whether a statement keyword starts a construct with no OpenQASM 2
/// counterpart.
fn unsupported_head(stmt: &[char]) -> (r: bool)
    ensures
        r == unsupported3(keyword_of(stmt@)),
{
    let h = keyword(stmt);
    let hs = h.as_slice();
    same(hs, chars_of("for").as_slice()) || same(hs, chars_of("while").as_slice()) || same(hs, chars_of("def").as_slice())
        || same(hs, chars_of("defcal").as_slice()) || same(hs, chars_of("let").as_slice()) || same(
        hs,
        chars_of("cal").as_slice(),
    ) || same(hs, chars_of("extern").as_slice()) || same(hs, chars_of("duration").as_slice()) || same(
        hs,
        chars_of("stretch").as_slice(),
    ) || same(hs, chars_of("delay").as_slice()) || same(hs, chars_of("box").as_slice()) || same(
        hs,
        chars_of("else").as_slice(),
    )
}

/// Rewrite one statement, which a conditional block may expand into several.
pub fn rewrite(stmt: &[char]) -> (r: Result<Vec<Vec<char>>, Vec<char>>)
    ensures
        match r {
            Ok(v) => rewrite_spec(stmt@) == Ok::<Seq<Seq<char>>, Seq<char>>(v@.map_values(|p: Vec<char>| p@)),
            Err(m) => rewrite_spec(stmt@) == Err::<Seq<Seq<char>>, Seq<char>>(m@),
        },
{
    if unsupported_head(stmt) {
        let h = keyword(stmt);
        let mut m = chars_of("unsupported OpenQASM 3 construct `");
        push_all(&mut m, h.as_slice());
        push_all(&mut m, chars_of("`; this engine covers the subset that maps onto OpenQASM 2").as_slice());
        return Err(m);
    }
    let one = |d: Vec<char>| -> (v: Vec<Vec<char>>)
        ensures
            v@.map_values(|p: Vec<char>| p@) == seq![d@],
        {
            let v = vec![d];
            proof {
                assert(v@.map_values(|p: Vec<char>| p@) =~= seq![v@[0]@]);
            }
            v
        };
    if crate::qasm::keyword_is(stmt, "qubit") {
        let d = declaration(stmt, "qubit", "qreg")?;
        return Ok(one(d));
    }
    if crate::qasm::keyword_is(stmt, "bit") {
        let d = declaration(stmt, "bit", "creg")?;
        return Ok(one(d));
    }
    if crate::qasm::keyword_is(stmt, "if") {
        return conditional(stmt);
    }
    match measurement_assignment(stmt) {
        Some(m) => Ok(one(m)),
        None => Ok(one(copy_chars_of(stmt))),
    }
}

/// Rewrite OpenQASM 3 declarations and statements into the OpenQASM 2
/// subset.
pub fn normalize(src: &[char]) -> (r: Result<Vec<char>, Vec<char>>)
    ensures
        match r {
            Ok(t) => normalize_spec(src@) == Ok::<Seq<char>, Seq<char>>(t@),
            Err(m) => normalize_spec(src@) == Err::<Seq<char>, Seq<char>>(m@),
        },
{
    let clean = strip_comments(src);
    let stmts = split_statements(clean.as_slice())?;
    let ghost sv = stmts@.map_values(|p: Vec<char>| p@);
    let mut out = chars_of("OPENQASM 2.0;\n");
    let mut k: usize = 0;
    while k < stmts.len()
        invariant
            k <= stmts@.len(),
            sv == stmts@.map_values(|p: Vec<char>| p@),
            normalize_spec(src@) == normalize_from(sv, k as int, out@),
        decreases stmts@.len() - k,
    {
        let s = stmts[k].as_slice();
        proof {
            assert(sv[k as int] == s@);
        }
        if starts_with(s, chars_of("OPENQASM").as_slice()) {
            k = k + 1;
            continue;
        }
        let pieces = rewrite(s)?;
        let ghost pv = pieces@.map_values(|p: Vec<char>| p@);
        let ghost base = out@;
        let mut j: usize = 0;
        proof {
            assert(pv.take(0) =~= Seq::<Seq<char>>::empty());
            assert(base + terminated(Seq::<Seq<char>>::empty()) =~= base);
        }
        while j < pieces.len()
            invariant
                j <= pieces@.len(),
                pv == pieces@.map_values(|p: Vec<char>| p@),
                out@ == base + terminated(pv.take(j as int)),
            decreases pieces@.len() - j,
        {
            push_all(&mut out, pieces[j].as_slice());
            push_all(&mut out, chars_of(";\n").as_slice());
            proof {
                assert(pv.take(j + 1).drop_last() =~= pv.take(j as int));
                assert(pv.take(j + 1).last() == pieces@[j as int]@);
                assert(out@ =~= base + terminated(pv.take(j + 1)));
            }
            j = j + 1;
        }
        proof {
            assert(pv.take(pieces@.len() as int) =~= pv);
        }
        k = k + 1;
    }
    Ok(out)
}

/// Parse an OpenQASM 3 program into a [`Circuit`].
///
/// Angles are checked for their syntax and their names, and kept as
/// expressions: their numeric values are not computed here. An angle whose
/// value is not a finite number, such as `1/0`, is accepted by this function;
/// a caller that evaluates the angles reports it then.
pub fn parse(src: &str) -> (r: Result<Circuit, ParseError>)
    ensures
        match r {
            Ok(c) => qasm3_spec(src@) == Ok::<CircuitV, Seq<char>>(c@),
            Err(e) => qasm3_spec(src@) == Err::<CircuitV, Seq<char>>(e.message@) && e.line is None,
        },
{
    let normalized = match normalize(chars_of(src).as_slice()) {
        Ok(t) => t,
        Err(m) => return Err(ParseError::new(string_of(m.as_slice()))),
    };
    match crate::qasm::parse_chars(normalized.as_slice()) {
        Ok(c) => Ok(c),
        Err(m) => Err(ParseError::new(string_of(m.as_slice()))),
    }
}

} // verus!
