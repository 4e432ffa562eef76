//! A small OpenQASM 2.0 subset importer.
//!
//! Parses the common, hand-written subset of OpenQASM 2.0 into a [`Circuit`]:
//! the `OPENQASM` header and `include` (accepted and ignored), `qreg`s mapped
//! into one flat qubit space in declaration order, `creg` and `barrier`
//! (ignored), `measure` and `reset`, the gates of `qelib1.inc`, the `U` and
//! `CX` primitives, and `gate` declarations expanded at each call site.
//! `//` and `/* */` comments are stripped first. Anything else (`opaque`,
//! `if`) is reported rather than silently mis-simulated.
use vstd::prelude::*;
use crate::expr::{
    angles_v, copy_chars, copy_opt_chars, exprs_of, index_of_name, opt_chars, parse_expr, parse_expr_spec, subst,
    substitute, find_name, Angle, AngleV, ExprV,
};
use crate::error::ParseError;
use crate::circuit::{gates_of, gates_only, sp_measure_into, sp_reset_each, with_op, Circuit, CircuitV, OpV};
use crate::qelib::{apply_builtin, builtin_of, builtin_spec, lemma_effect_gates};
use crate::text::{
    alnum, alpha, chars_of, copy_range, decimal, find, first_index, is_alnum, is_alpha, is_ws, last_index,
    parse_u64, parse_u64_spec, parse_usize, parse_usize_spec, split_once_chars, split_once_pair, push_all, push_decimal, rfind, same, split_char, split_on,
    strip_prefix, strip_prefix_chars, string_of, trim, trim_vec, ws,
};

verus! {

/// `a` `b` `c`, as one message.
pub fn cat3(a: &str, b: &[char], c: &str) -> (r: Vec<char>)
    ensures
        r@ == a@ + b@ + c@,
{
    let mut out = chars_of(a);
    push_all(&mut out, b);
    push_all(&mut out, chars_of(c).as_slice());
    out
}

// ---------------------------------------------------------------------------
// Comments and statements.
// ---------------------------------------------------------------------------

/// The first newline at or after `k`, or the end.
pub open spec fn next_newline(s: Seq<char>, k: int) -> int
    decreases s.len() - k,
{
    if 0 <= k < s.len() && s[k] != '\n' {
        next_newline(s, k + 1)
    } else {
        k
    }
}

/// `s[i..]` with comments removed, `in_block` telling whether position `i`
/// is inside a `/* ... */` comment. A `//` comment runs to the end of its line
/// and keeps the newline.
pub open spec fn strip_from(s: Seq<char>, i: int, in_block: bool) -> Seq<char>
    decreases s.len() - i,
{
    if i < 0 || i >= s.len() {
        Seq::empty()
    } else if in_block {
        if s[i] == '*' && i + 1 < s.len() && s[i + 1] == '/' {
            strip_from(s, i + 2, false)
        } else {
            strip_from(s, i + 1, true)
        }
    } else if s[i] == '/' && i + 1 < s.len() && s[i + 1] == '*' {
        strip_from(s, i + 2, true)
    } else if s[i] == '/' && i + 1 < s.len() && s[i + 1] == '/' {
        let j = next_newline(s, i + 1);
        proof { lemma_next_newline(s, i + 1); }
        if j < s.len() {
            seq!['\n'] + strip_from(s, j + 1, false)
        } else {
            Seq::empty()
        }
    } else {
        seq![s[i]] + strip_from(s, i + 1, false)
    }
}

pub proof fn lemma_next_newline(s: Seq<char>, k: int)
    requires
        0 <= k <= s.len(),
    ensures
        k <= next_newline(s, k) <= s.len(),
        next_newline(s, k) < s.len() ==> s[next_newline(s, k)] == '\n',
    decreases s.len() - k,
{
    if 0 <= k < s.len() && s[k] != '\n' {
        lemma_next_newline(s, k + 1);
    }
}

/// Remove `//` line comments and `/* ... */` block comments.
pub fn strip_comments(src: &[char]) -> (r: Vec<char>)
    ensures
        r@ == strip_from(src@, 0, false),
{
    let mut out: Vec<char> = Vec::new();
    let mut i: usize = 0;
    let mut in_block = false;
    while i < src.len()
        invariant
            i <= src@.len(),
            out@ + strip_from(src@, i as int, in_block) == strip_from(src@, 0, false),
        decreases src@.len() - i,
    {
        if in_block {
            if src[i] == '*' && src.len() - i > 1 && src[i + 1] == '/' {
                i = i + 2;
                in_block = false;
            } else {
                i = i + 1;
            }
        } else if src[i] == '/' && src.len() - i > 1 && src[i + 1] == '*' {
            i = i + 2;
            in_block = true;
        } else if src[i] == '/' && src.len() - i > 1 && src[i + 1] == '/' {
            let ghost i0 = i as int;
            let mut j = i + 1;
            while j < src.len() && src[j] != '\n'
                invariant
                    i0 + 1 <= j <= src@.len(),
                    next_newline(src@, i0 + 1) == next_newline(src@, j as int),
                decreases src@.len() - j,
            {
                j = j + 1;
            }
            if j < src.len() {
                let ghost before = out@;
                out.push('\n');
                proof {
                    assert(out@ == before + seq!['\n']);
                    assert(out@ + strip_from(src@, j + 1, false) =~= before + (seq!['\n'] + strip_from(src@, j + 1, false)));
                }
                i = j + 1;
            } else {
                proof {
                    assert(out@ + Seq::<char>::empty() == out@);
                }
                i = src.len();
                proof {
                    assert(strip_from(src@, i as int, false) == Seq::<char>::empty());
                }
                return out;
            }
        } else {
            let ghost before = out@;
            out.push(src[i]);
            proof {
                assert(out@ + strip_from(src@, i + 1, false) =~= before + (seq![src@[i as int]] + strip_from(src@, i + 1, false)));
            }
            i = i + 1;
        }
    }
    proof {
        assert(out@ + Seq::<char>::empty() == out@);
    }
    out
}

/// The statement scan from position `i`: `depth` open braces, the current
/// statement starting at `start`, and the statements `acc` found so far.
pub open spec fn scan_statements(
    s: Seq<char>,
    i: int,
    depth: nat,
    start: int,
    acc: Seq<Seq<char>>,
) -> Result<Seq<Seq<char>>, Seq<char>>
    decreases s.len() - i,
{
    if i < 0 || i >= s.len() {
        if depth != 0 {
            Err("unterminated `{` (missing `}`)"@)
        } else {
            Ok(acc.push(s.subrange(start, s.len() as int)))
        }
    } else if s[i] == '{' {
        scan_statements(s, i + 1, depth + 1, start, acc)
    } else if s[i] == '}' {
        if depth == 0 {
            Err("unexpected `}`"@)
        } else if depth == 1 {
            scan_statements(s, i + 1, 0, i + 1, acc.push(s.subrange(start, i + 1)))
        } else {
            scan_statements(s, i + 1, (depth - 1) as nat, start, acc)
        }
    } else if s[i] == ';' && depth == 0 {
        scan_statements(s, i + 1, 0, i + 1, acc.push(s.subrange(start, i)))
    } else {
        scan_statements(s, i + 1, depth, start, acc)
    }
}

/// Each piece trimmed, and the empty ones dropped.
pub open spec fn trim_nonempty(pieces: Seq<Seq<char>>) -> Seq<Seq<char>> {
    pieces.map_values(|p: Seq<char>| trim(p)).filter(|p: Seq<char>| p.len() > 0)
}

/// The statements of `s`: split at each top-level `;`, and after the `}`
/// that closes a top-level brace (a `gate` body), then trimmed, with empty
/// ones dropped.
pub open spec fn statements_of(s: Seq<char>) -> Result<Seq<Seq<char>>, Seq<char>> {
    match scan_statements(s, 0, 0, 0, Seq::empty()) {
        Ok(pieces) => Ok(trim_nonempty(pieces)),
        Err(e) => Err(e),
    }
}

/// Trim each piece and keep the nonempty ones.
pub fn keep_trimmed(pieces: &Vec<Vec<char>>) -> (r: Vec<Vec<char>>)
    ensures
        r@.map_values(|p: Vec<char>| p@) == trim_nonempty(pieces@.map_values(|p: Vec<char>| p@)),
{
    let ghost pv = pieces@.map_values(|p: Vec<char>| p@);
    let ghost tv = pv.map_values(|p: Seq<char>| trim(p));
    let mut out: Vec<Vec<char>> = Vec::new();
    let mut k: usize = 0;
    while k < pieces.len()
        invariant
            k <= pieces@.len(),
            pv == pieces@.map_values(|p: Vec<char>| p@),
            tv == pv.map_values(|p: Seq<char>| trim(p)),
            out@.map_values(|p: Vec<char>| p@) == tv.take(k as int).filter(|p: Seq<char>| p.len() > 0),
        decreases pieces@.len() - k,
    {
        let t = trim_vec(pieces[k].as_slice());
        proof {
            assert(tv.take(k + 1).drop_last() == tv.take(k as int));
            assert(tv.take(k + 1).last() == t@);
            reveal_with_fuel(Seq::filter, 1);
        }
        if t.len() > 0 {
            let ghost before = out@.map_values(|p: Vec<char>| p@);
            out.push(t);
            proof {
                assert(out@.map_values(|p: Vec<char>| p@) =~= before.push(out@.last()@));
            }
        }
        k = k + 1;
    }
    proof {
        assert(tv.take(pieces@.len() as int) == tv);
    }
    out
}

/// Split a program into statements.
///
/// A statement normally ends at `;`, but a `gate` declaration's `{ ... }`
/// body holds semicolons of its own and ends at the closing brace.
pub fn split_statements(src: &[char]) -> (r: Result<Vec<Vec<char>>, Vec<char>>)
    ensures
        match r {
            Ok(v) => statements_of(src@) == Ok::<Seq<Seq<char>>, Seq<char>>(v@.map_values(|p: Vec<char>| p@)),
            Err(m) => statements_of(src@) == Err::<Seq<Seq<char>>, Seq<char>>(m@),
        },
{
    let mut pieces: Vec<Vec<char>> = Vec::new();
    let mut depth: usize = 0;
    let mut start: usize = 0;
    let mut i: usize = 0;
    proof {
        assert(pieces@.map_values(|p: Vec<char>| p@) =~= Seq::<Seq<char>>::empty());
    }
    while i < src.len()
        invariant
            start <= i <= src@.len(),
            depth <= i,
            scan_statements(src@, 0, 0, 0, Seq::empty()) == scan_statements(
                src@,
                i as int,
                depth as nat,
                start as int,
                pieces@.map_values(|p: Vec<char>| p@),
            ),
        decreases src@.len() - i,
    {
        let c = src[i];
        let ghost before = pieces@.map_values(|p: Vec<char>| p@);
        if c == '{' {
            depth = depth + 1;
        } else if c == '}' {
            if depth == 0 {
                return Err(chars_of("unexpected `}`"));
            }
            depth = depth - 1;
            if depth == 0 {
                pieces.push(copy_range(src, start, i + 1));
                proof {
                    assert(pieces@.map_values(|p: Vec<char>| p@) =~= before.push(src@.subrange(start as int, i + 1)));
                }
                start = i + 1;
            }
        } else if c == ';' && depth == 0 {
            pieces.push(copy_range(src, start, i));
            proof {
                assert(pieces@.map_values(|p: Vec<char>| p@) =~= before.push(src@.subrange(start as int, i as int)));
            }
            start = i + 1;
        }
        i = i + 1;
    }
    if depth != 0 {
        return Err(chars_of("unterminated `{` (missing `}`)"));
    }
    let ghost before = pieces@.map_values(|p: Vec<char>| p@);
    pieces.push(copy_range(src, start, src.len()));
    proof {
        assert(pieces@.map_values(|p: Vec<char>| p@) =~= before.push(src@.subrange(start as int, src@.len() as int)));
    }
    Ok(keep_trimmed(&pieces))
}

/// Whether `c` ends a statement's leading keyword.
pub open spec fn ends_keyword(c: char) -> bool {
    is_ws(c) || c == '(' || c == '['
}

/// Where the leading keyword that begins at `k` ends.
pub open spec fn keyword_end(s: Seq<char>, k: int) -> int
    decreases s.len() - k,
{
    if 0 <= k < s.len() && !ends_keyword(s[k]) {
        keyword_end(s, k + 1)
    } else {
        k
    }
}

/// The leading keyword of a statement: up to the first whitespace, `(` or `[`.
pub open spec fn keyword_of(s: Seq<char>) -> Seq<char> {
    s.take(keyword_end(s, 0))
}

/// The leading keyword of a statement.
pub fn keyword(stmt: &[char]) -> (r: Vec<char>)
    ensures
        r@ == keyword_of(stmt@),
{
    let mut k: usize = 0;
    while k < stmt.len() && !(ws(stmt[k]) || stmt[k] == '(' || stmt[k] == '[')
        invariant
            k <= stmt@.len(),
            keyword_end(stmt@, 0) == keyword_end(stmt@, k as int),
        decreases stmt@.len() - k,
    {
        k = k + 1;
    }
    let r = copy_range(stmt, 0, k);
    proof {
        assert(r@ =~= stmt@.take(k as int));
    }
    r
}

/// Whether the statement's keyword is `word`.
pub fn keyword_is(stmt: &[char], word: &str) -> (r: bool)
    ensures
        r == (keyword_of(stmt@) == word@),
{
    let k = keyword(stmt);
    same(k.as_slice(), chars_of(word).as_slice())
}


// ---------------------------------------------------------------------------
// Registers, operands and declarations.
// ---------------------------------------------------------------------------

/// A quantum register's placement in the flat qubit index space.
#[derive(Debug, Clone, Copy, PartialEq, Eq, Structural)]
pub struct Reg {
    /// The flat index of its first qubit.
    pub offset: usize,
    /// Its number of qubits.
    pub size: usize,
}

/// The characters of each name in a list.
pub open spec fn names_of(v: Seq<Vec<char>>) -> Seq<Seq<char>> {
    v.map_values(|n: Vec<char>| n@)
}

/// A register table read as names and placements.
pub open spec fn regs_of(v: Seq<(Vec<char>, Reg)>) -> Seq<(Seq<char>, Reg)> {
    v.map_values(|e: (Vec<char>, Reg)| (e.0@, e.1))
}

/// The register called `name`, if any (the latest declared wins; names are
/// unique in any table the importer builds).
pub open spec fn lookup_reg(regs: Seq<(Seq<char>, Reg)>, name: Seq<char>) -> Option<Reg>
    decreases regs.len(),
{
    if regs.len() == 0 {
        None
    } else if regs.last().0 == name {
        Some(regs.last().1)
    } else {
        lookup_reg(regs.drop_last(), name)
    }
}

/// Find the register called `name`.
pub fn find_reg(regs: &Vec<(Vec<char>, Reg)>, name: &[char]) -> (r: Option<Reg>)
    ensures
        r == lookup_reg(regs_of(regs@), name@),
{
    let ghost rv = regs_of(regs@);
    let mut k = regs.len();
    proof {
        assert(rv.take(k as int) =~= rv);
    }
    while k > 0
        invariant
            k <= regs@.len(),
            rv == regs_of(regs@),
            lookup_reg(rv, name@) == lookup_reg(rv.take(k as int), name@),
        decreases k,
    {
        proof {
            assert(rv.take(k as int).drop_last() == rv.take(k - 1));
            assert(rv.take(k as int).last() == rv[k - 1]);
        }
        if same(regs[k - 1].0.as_slice(), name) {
            return Some(regs[k - 1].1);
        }
        k = k - 1;
    }
    None
}

/// `prefix` + `stmt` + "`", the shape of most statement errors.
pub open spec fn about(prefix: Seq<char>, stmt: Seq<char>) -> Seq<char> {
    prefix + stmt + "`"@
}

/// `kw name[N]` (`kw` is `qreg` or `creg`): its name and size, or what is
/// wrong with it.
#[verifier::opaque]
pub open spec fn reg_decl_spec(stmt: Seq<char>, kw: Seq<char>) -> Result<(Seq<char>, usize), Seq<char>> {
    match strip_prefix(stmt, kw) {
        None => Err(about("malformed register declaration `"@, stmt)),
        Some(r0) => {
            let rest = trim(r0);
            match first_index(rest, '[') {
                None => Err(about("register declaration needs a size: `"@, stmt)),
                Some(open) => match first_index(rest, ']') {
                    None => Err(about("register declaration needs `]`: `"@, stmt)),
                    Some(close) => if close < open {
                        Err(about("malformed register declaration `"@, stmt))
                    } else {
                        let name = trim(rest.take(open));
                        if name.len() == 0 {
                            Err(about("register needs a name: `"@, stmt))
                        } else {
                            match parse_usize_spec(trim(rest.subrange(open + 1, close))) {
                                None => Err(about("invalid register size in `"@, stmt)),
                                Some(size) => if size == 0 {
                                    Err(about("register size must be >= 1: `"@, stmt))
                                } else {
                                    Ok((name, size))
                                },
                            }
                        }
                    },
                },
            }
        },
    }
}

/// Parse `qreg name[N]` or `creg name[N]` (the trailing `;` already
/// stripped), `kw` naming which.
pub fn parse_reg_decl(stmt: &[char], kw: &str) -> (r: Result<(Vec<char>, usize), Vec<char>>)
    ensures
        match r {
            Ok((n, size)) => reg_decl_spec(stmt@, kw@) == Ok::<(Seq<char>, usize), Seq<char>>((n@, size)),
            Err(m) => reg_decl_spec(stmt@, kw@) == Err::<(Seq<char>, usize), Seq<char>>(m@),
        },
{
    proof {
        reveal(reg_decl_spec);
    }
    let r0 = match strip_prefix_chars(stmt, kw) {
        Some(r0) => r0,
        None => return Err(cat3("malformed register declaration `", stmt, "`")),
    };
    let rest = trim_vec(r0.as_slice());
    let open = match find(rest.as_slice(), '[') {
        Some(o) => o,
        None => return Err(cat3("register declaration needs a size: `", stmt, "`")),
    };
    let close = match find(rest.as_slice(), ']') {
        Some(c) => c,
        None => return Err(cat3("register declaration needs `]`: `", stmt, "`")),
    };
    if close < open {
        return Err(cat3("malformed register declaration `", stmt, "`"));
    }
    let name_raw = copy_range(rest.as_slice(), 0, open);
    let name = trim_vec(name_raw.as_slice());
    proof {
        assert(name_raw@ == rest@.take(open as int));
    }
    if name.len() == 0 {
        return Err(cat3("register needs a name: `", stmt, "`"));
    }
    let size_raw = copy_range(rest.as_slice(), open + 1, close);
    let size_text = trim_vec(size_raw.as_slice());
    match parse_usize(size_text.as_slice()) {
        None => Err(cat3("invalid register size in `", stmt, "`")),
        Some(size) => if size == 0 {
            Err(cat3("register size must be >= 1: `", stmt, "`"))
        } else {
            Ok((name, size))
        },
    }
}

/// Where a gate statement's head ends: the first whitespace outside
/// parentheses, with `depth` parentheses open before `k`.
pub open spec fn head_end(s: Seq<char>, k: int, depth: int) -> int
    decreases s.len() - k,
{
    if k < 0 || k >= s.len() {
        s.len() as int
    } else if s[k] == '(' {
        head_end(s, k + 1, depth + 1)
    } else if s[k] == ')' {
        head_end(s, k + 1, depth - 1)
    } else if is_ws(s[k]) && depth == 0 {
        k
    } else {
        head_end(s, k + 1, depth)
    }
}

/// A gate statement's head (name and optional parameters) and its operand
/// list, split at the first top-level whitespace.
pub open spec fn split_head_spec(s: Seq<char>) -> (Seq<char>, Seq<char>) {
    let i = head_end(s, 0, 0);
    if i < s.len() {
        (trim(s.take(i)), trim(s.skip(i)))
    } else {
        (trim(s), Seq::empty())
    }
}

/// Split a gate statement into its head and its operand list.
pub fn split_head(stmt: &[char]) -> (r: (Vec<char>, Vec<char>))
    ensures
        (r.0@, r.1@) == split_head_spec(stmt@),
{
    let mut opens: usize = 0;
    let mut closes: usize = 0;
    let mut k: usize = 0;
    while k < stmt.len()
        invariant
            k <= stmt@.len(),
            opens + closes <= k,
            head_end(stmt@, 0, 0) == head_end(stmt@, k as int, opens - closes),
        decreases stmt@.len() - k,
    {
        let c = stmt[k];
        if c == '(' {
            opens = opens + 1;
        } else if c == ')' {
            closes = closes + 1;
        } else if ws(c) && opens == closes {
            let a = copy_range(stmt, 0, k);
            let b = copy_range(stmt, k, stmt.len());
            proof {
                assert(a@ == stmt@.take(k as int));
                assert(b@ == stmt@.skip(k as int));
            }
            return (trim_vec(a.as_slice()), trim_vec(b.as_slice()));
        }
        k = k + 1;
    }
    (trim_vec(stmt), Vec::new())
}

/// A head's gate name and parenthesised parameter text, if any.
pub open spec fn parse_head_spec(h: Seq<char>) -> (Seq<char>, Option<Seq<char>>) {
    match (first_index(h, '('), last_index(h, ')')) {
        (Some(open), Some(close)) => if close > open {
            (trim(h.take(open)), Some(trim(h.subrange(open + 1, close))))
        } else {
            (trim(h), None)
        },
        _ => (trim(h), None),
    }
}

/// Split a head into its gate name and parameter text.
pub fn parse_head(head: &[char]) -> (r: (Vec<char>, Option<Vec<char>>))
    ensures
        (r.0@, match r.1 { Some(p) => Some(p@), None => None }) == parse_head_spec(head@),
{
    match (find(head, '('), rfind(head, ')')) {
        (Some(open), Some(close)) => if close > open {
            let a = copy_range(head, 0, open);
            let b = copy_range(head, open + 1, close);
            proof {
                assert(a@ == head@.take(open as int));
            }
            (trim_vec(a.as_slice()), Some(trim_vec(b.as_slice())))
        } else {
            (trim_vec(head), None)
        },
        _ => (trim_vec(head), None),
    }
}

/// An identifier: a letter or `_`, then letters, digits and `_`.
pub open spec fn is_identifier(n: Seq<char>) -> bool {
    &&& n.len() > 0
    &&& (is_alpha(n[0]) || n[0] == '_')
    &&& forall|i: int| 0 <= i < n.len() ==> is_alnum(#[trigger] n[i]) || n[i] == '_'
}

/// Whether `n` is an identifier.
pub fn identifier(n: &[char]) -> (r: bool)
    ensures
        r == is_identifier(n@),
{
    if n.len() == 0 || !(alpha(n[0]) || n[0] == '_') {
        return false;
    }
    let mut k: usize = 0;
    while k < n.len()
        invariant
            k <= n@.len(),
            forall|i: int| 0 <= i < k ==> is_alnum(#[trigger] n@[i]) || n@[i] == '_',
        decreases n@.len() - k,
    {
        if !(alnum(n[k]) || n[k] == '_') {
            return false;
        }
        k = k + 1;
    }
    true
}

/// The names of `pieces` from `k` on, appended to `acc`: each must be an
/// identifier, and none may repeat.
pub open spec fn ids_from(
    pieces: Seq<Seq<char>>,
    k: int,
    acc: Seq<Seq<char>>,
    kind: Seq<char>,
    stmt: Seq<char>,
) -> Result<Seq<Seq<char>>, Seq<char>>
    decreases pieces.len() - k,
{
    if k < 0 || k >= pieces.len() {
        Ok(acc)
    } else {
        let name = trim(pieces[k]);
        if !is_identifier(name) {
            Err("invalid "@ + kind + " `"@ + name + "` in `"@ + stmt + "`"@)
        } else if acc.contains(name) {
            Err("duplicate "@ + kind + " `"@ + name + "` in `"@ + stmt + "`"@)
        } else {
            ids_from(pieces, k + 1, acc.push(name), kind, stmt)
        }
    }
}

/// A comma-separated list of formal names.
pub open spec fn ids_spec(list: Seq<char>, kind: Seq<char>, stmt: Seq<char>) -> Result<Seq<Seq<char>>, Seq<char>> {
    let l = trim(list);
    if l.len() == 0 {
        Ok(Seq::empty())
    } else {
        ids_from(split_on(l, ','), 0, Seq::empty(), kind, stmt)
    }
}

/// `pre kind `name` in `stmt``
fn id_error(pre: &str, kind: &str, name: &[char], stmt: &[char]) -> (r: Vec<char>)
    ensures
        r@ == pre@ + kind@ + " `"@ + name@ + "` in `"@ + stmt@ + "`"@,
{
    let mut out = chars_of(pre);
    push_all(&mut out, chars_of(kind).as_slice());
    push_all(&mut out, chars_of(" `").as_slice());
    push_all(&mut out, name);
    push_all(&mut out, chars_of("` in `").as_slice());
    push_all(&mut out, stmt);
    push_all(&mut out, chars_of("`").as_slice());
    out
}

/// Parse a comma-separated list of formal names, rejecting duplicates and
/// anything that is not an identifier.
pub fn parse_identifiers(list: &[char], kind: &str, stmt: &[char]) -> (r: Result<Vec<Vec<char>>, Vec<char>>)
    ensures
        match r {
            Ok(v) => ids_spec(list@, kind@, stmt@) == Ok::<Seq<Seq<char>>, Seq<char>>(names_of(v@)),
            Err(m) => ids_spec(list@, kind@, stmt@) == Err::<Seq<Seq<char>>, Seq<char>>(m@),
        },
{
    let l = trim_vec(list);
    let mut names: Vec<Vec<char>> = Vec::new();
    if l.len() == 0 {
        proof {
            assert(names_of(names@) =~= Seq::<Seq<char>>::empty());
        }
        return Ok(names);
    }
    let pieces = split_char(l.as_slice(), ',');
    let ghost pv = pieces@.map_values(|p: Vec<char>| p@);
    let mut k: usize = 0;
    proof {
        assert(names_of(names@) =~= Seq::<Seq<char>>::empty());
    }
    while k < pieces.len()
        invariant
            k <= pieces@.len(),
            pv == pieces@.map_values(|p: Vec<char>| p@),
            pv == split_on(l@, ','),
            ids_spec(list@, kind@, stmt@) == ids_from(pv, k as int, names_of(names@), kind@, stmt@),
        decreases pieces@.len() - k,
    {
        let name = trim_vec(pieces[k].as_slice());
        if !identifier(name.as_slice()) {
            return Err(id_error("invalid ", kind, name.as_slice(), stmt));
        }
        if crate::expr::has_name(names.as_slice(), name.as_slice()) {
            return Err(id_error("duplicate ", kind, name.as_slice(), stmt));
        }
        let ghost before = names_of(names@);
        names.push(name);
        proof {
            assert(names_of(names@) =~= before.push(names@.last()@));
        }
        k = k + 1;
    }
    Ok(names)
}

/// The flat index of `name[index]`, or what is wrong with the reference.
#[verifier::opaque]
pub open spec fn qubit_ref_spec(op: Seq<char>, regs: Seq<(Seq<char>, Reg)>) -> Result<usize, Seq<char>> {
    match first_index(op, '[') {
        None => Err(about("expected a qubit reference like `q[0]`, got `"@, op)),
        Some(open) => match first_index(op, ']') {
            None => Err(about("qubit reference missing `]`: `"@, op)),
            Some(close) => if close < open {
                Err(about("malformed qubit reference `"@, op))
            } else {
                let name = trim(op.take(open));
                match parse_usize_spec(trim(op.subrange(open + 1, close))) {
                    None => Err(about("invalid qubit index in `"@, op)),
                    Some(index) => match lookup_reg(regs, name) {
                        None => Err(about("unknown register `"@, name)),
                        Some(reg) => if index >= reg.size {
                            Err("qubit "@ + name + "["@ + decimal(index as nat) + "] out of range (register size "@
                                + decimal(reg.size as nat) + ")"@)
                        } else {
                            Ok((reg.offset + index) as usize)
                        },
                    },
                }
            },
        },
    }
}

/// Every register fits in a register of at most `max` qubits.
pub open spec fn regs_bounded(regs: Seq<(Seq<char>, Reg)>, max: nat) -> bool {
    forall|i: int| 0 <= i < regs.len() ==> #[trigger] regs[i].1.offset + regs[i].1.size <= max
}

pub proof fn lemma_lookup_in(regs: Seq<(Seq<char>, Reg)>, name: Seq<char>, max: nat)
    requires
        regs_bounded(regs, max),
    ensures
        lookup_reg(regs, name) matches Some(r) ==> r.offset + r.size <= max,
    decreases regs.len(),
{
    if regs.len() > 0 {
        assert(regs.last() == regs[regs.len() - 1]);
        if regs.last().0 != name {
            assert forall|i: int| 0 <= i < regs.drop_last().len() implies #[trigger] regs.drop_last()[i].1.offset
                + regs.drop_last()[i].1.size <= max by {
                assert(regs.drop_last()[i] == regs[i]);
            }
            lemma_lookup_in(regs.drop_last(), name, max);
        }
    }
}

/// Resolve a single `name[index]` reference to a flat qubit index.
pub fn parse_qubit_ref(op: &[char], regs: &Vec<(Vec<char>, Reg)>) -> (r: Result<usize, Vec<char>>)
    requires
        regs_bounded(regs_of(regs@), usize::MAX as nat),
    ensures
        match r {
            Ok(q) => qubit_ref_spec(op@, regs_of(regs@)) == Ok::<usize, Seq<char>>(q),
            Err(m) => qubit_ref_spec(op@, regs_of(regs@)) == Err::<usize, Seq<char>>(m@),
        },
{
    proof {
        reveal(qubit_ref_spec);
    }
    let open = match find(op, '[') {
        Some(o) => o,
        None => return Err(cat3("expected a qubit reference like `q[0]`, got `", op, "`")),
    };
    let close = match find(op, ']') {
        Some(c) => c,
        None => return Err(cat3("qubit reference missing `]`: `", op, "`")),
    };
    if close < open {
        return Err(cat3("malformed qubit reference `", op, "`"));
    }
    let name_raw = copy_range(op, 0, open);
    let name = trim_vec(name_raw.as_slice());
    proof {
        assert(name_raw@ == op@.take(open as int));
    }
    let index_raw = copy_range(op, open + 1, close);
    let index_text = trim_vec(index_raw.as_slice());
    let index = match parse_usize(index_text.as_slice()) {
        Some(i) => i,
        None => return Err(cat3("invalid qubit index in `", op, "`")),
    };
    let reg = match find_reg(regs, name.as_slice()) {
        Some(r) => r,
        None => return Err(cat3("unknown register `", name.as_slice(), "`")),
    };
    proof {
        lemma_lookup_in(regs_of(regs@), name@, usize::MAX as nat);
    }
    if index >= reg.size {
        let mut m = chars_of("qubit ");
        push_all(&mut m, name.as_slice());
        push_all(&mut m, chars_of("[").as_slice());
        push_decimal(&mut m, index as u64);
        push_all(&mut m, chars_of("] out of range (register size ").as_slice());
        push_decimal(&mut m, reg.size as u64);
        push_all(&mut m, chars_of(")").as_slice());
        return Err(m);
    }
    Ok(reg.offset + index)
}

/// The flat indices of the comma-separated references in `pieces` from `k`
/// on, after `acc`.
pub open spec fn operands_from(
    pieces: Seq<Seq<char>>,
    k: int,
    acc: Seq<usize>,
    regs: Seq<(Seq<char>, Reg)>,
) -> Result<Seq<usize>, Seq<char>>
    decreases pieces.len() - k,
{
    if k < 0 || k >= pieces.len() {
        Ok(acc)
    } else {
        match qubit_ref_spec(trim(pieces[k]), regs) {
            Ok(q) => operands_from(pieces, k + 1, acc.push(q), regs),
            Err(e) => Err(e),
        }
    }
}

/// A comma-separated operand list like `q[0],q[1]` as flat qubit indices.
pub open spec fn operands_spec(ops: Seq<char>, regs: Seq<(Seq<char>, Reg)>) -> Result<Seq<usize>, Seq<char>> {
    if trim(ops).len() == 0 {
        Ok(Seq::empty())
    } else {
        operands_from(split_on(ops, ','), 0, Seq::empty(), regs)
    }
}

/// Parse a comma-separated operand list into flat qubit indices.
pub fn parse_operands(ops: &[char], regs: &Vec<(Vec<char>, Reg)>) -> (r: Result<Vec<usize>, Vec<char>>)
    requires
        regs_bounded(regs_of(regs@), usize::MAX as nat),
    ensures
        match r {
            Ok(v) => operands_spec(ops@, regs_of(regs@)) == Ok::<Seq<usize>, Seq<char>>(v@),
            Err(m) => operands_spec(ops@, regs_of(regs@)) == Err::<Seq<usize>, Seq<char>>(m@),
        },
{
    let mut out: Vec<usize> = Vec::new();
    if trim_vec(ops).len() == 0 {
        return Ok(out);
    }
    let pieces = split_char(ops, ',');
    let ghost pv = pieces@.map_values(|p: Vec<char>| p@);
    let mut k: usize = 0;
    while k < pieces.len()
        invariant
            k <= pieces@.len(),
            pv == pieces@.map_values(|p: Vec<char>| p@),
            pv == split_on(ops@, ','),
            regs_bounded(regs_of(regs@), usize::MAX as nat),
            operands_spec(ops@, regs_of(regs@)) == operands_from(pv, k as int, out@, regs_of(regs@)),
        decreases pieces@.len() - k,
    {
        let t = trim_vec(pieces[k].as_slice());
        match parse_qubit_ref(t.as_slice(), regs) {
            Ok(q) => out.push(q),
            Err(e) => return Err(e),
        }
        k = k + 1;
    }
    Ok(out)
}

/// `q[i]` as that one qubit, or a bare `q` as the whole register.
pub open spec fn resolve_spec(operand: Seq<char>, regs: Seq<(Seq<char>, Reg)>, stmt: Seq<char>) -> Result<Seq<usize>, Seq<char>> {
    if operand.len() == 0 {
        Err(about("expected a qubit in `"@, stmt))
    } else if operand.contains('[') {
        match operands_spec(operand, regs) {
            Err(e) => Err(e),
            Ok(qs) => if qs.len() != 1 {
                Err("expected one qubit, got "@ + decimal(qs.len()) + " in `"@ + stmt + "`"@)
            } else {
                Ok(qs)
            },
        }
    } else {
        match lookup_reg(regs, operand) {
            None => Err("unknown register `"@ + operand + "` in `"@ + stmt + "`"@),
            Some(reg) => Ok(Seq::new(reg.size as nat, |i: int| (reg.offset + i) as usize)),
        }
    }
}

/// Resolve `q[i]` to that one qubit, or a bare `q` to the whole register.
pub fn resolve_qubits(operand: &[char], regs: &Vec<(Vec<char>, Reg)>, stmt: &[char]) -> (r: Result<Vec<usize>, Vec<char>>)
    requires
        regs_bounded(regs_of(regs@), usize::MAX as nat),
    ensures
        match r {
            Ok(v) => resolve_spec(operand@, regs_of(regs@), stmt@) == Ok::<Seq<usize>, Seq<char>>(v@),
            Err(m) => resolve_spec(operand@, regs_of(regs@), stmt@) == Err::<Seq<usize>, Seq<char>>(m@),
        },
{
    if operand.len() == 0 {
        return Err(cat3("expected a qubit in `", stmt, "`"));
    }
    let has_bracket = find(operand, '[').is_some();
    proof {
        if has_bracket {
            let k = choose|k: int| 0 <= k < operand@.len() && operand@[k] == '[';
            assert(operand@.contains('['));
        } else {
            assert(!operand@.contains('['));
        }
    }
    if has_bracket {
        let qubits = parse_operands(operand, regs)?;
        if qubits.len() != 1 {
            let mut m = chars_of("expected one qubit, got ");
            push_decimal(&mut m, qubits.len() as u64);
            push_all(&mut m, chars_of(" in `").as_slice());
            push_all(&mut m, stmt);
            push_all(&mut m, chars_of("`").as_slice());
            return Err(m);
        }
        return Ok(qubits);
    }
    let reg = match find_reg(regs, operand) {
        Some(r) => r,
        None => {
            let mut m = chars_of("unknown register `");
            push_all(&mut m, operand);
            push_all(&mut m, chars_of("` in `").as_slice());
            push_all(&mut m, stmt);
            push_all(&mut m, chars_of("`").as_slice());
            return Err(m);
        },
    };
    proof {
        lemma_lookup_in(regs_of(regs@), operand@, usize::MAX as nat);
    }
    let mut out: Vec<usize> = Vec::new();
    let mut i: usize = 0;
    while i < reg.size
        invariant
            i <= reg.size,
            reg.offset + reg.size <= usize::MAX,
            out@ == Seq::new(i as nat, |j: int| (reg.offset + j) as usize),
        decreases reg.size - i,
    {
        out.push(reg.offset + i);
        i = i + 1;
        proof {
            assert(out@ =~= Seq::new(i as nat, |j: int| (reg.offset + j) as usize));
        }
    }
    Ok(out)
}

/// No two operands are the same qubit.
pub open spec fn distinct(q: Seq<usize>) -> bool {
    forall|i: int, j: int| 0 <= i < j < q.len() ==> q[i] != q[j]
}

/// Reject repeated qubit operands (e.g. `cx q[0],q[0]`).
pub fn require_distinct(q: &[usize], stmt: &[char]) -> (r: Result<(), Vec<char>>)
    ensures
        r is Ok <==> distinct(q@),
        r matches Err(m) ==> m@ == about("operands must be distinct qubits: `"@, stmt@),
{
    let mut i: usize = 0;
    while i < q.len()
        invariant
            i <= q@.len(),
            forall|a: int, b: int| 0 <= a < i && a < b < q@.len() ==> q@[a] != q@[b],
        decreases q@.len() - i,
    {
        let mut j = i + 1;
        while j < q.len()
            invariant
                i < q@.len(),
                i + 1 <= j <= q@.len(),
                forall|a: int, b: int| 0 <= a < i && a < b < q@.len() ==> q@[a] != q@[b],
                forall|b: int| i < b < j ==> q@[i as int] != q@[b],
            decreases q@.len() - j,
        {
            if q[i] == q[j] {
                return Err(cat3("operands must be distinct qubits: `", stmt, "`"));
            }
            j = j + 1;
        }
        i = i + 1;
    }
    Ok(())
}


// ---------------------------------------------------------------------------
// `gate` declarations.
// ---------------------------------------------------------------------------

/// How deeply user gates may nest. OpenQASM 2 forbids recursion, but a
/// malformed file can still describe a cycle, and this bounds it.
pub const MAX_GATE_DEPTH: usize = 64;

/// How many built-in gates a program may expand to. A short file can describe
/// an exponential expansion, so the budget, not the input size, bounds the
/// work.
pub const MAX_EXPANDED_OPS: usize = 100000;

/// A user `gate` declaration: its formal angle parameters, its formal qubit
/// arguments, and the statements of its body, all unresolved.
#[derive(Debug)]
pub struct GateDef {
    /// The formal angle parameters.
    pub params: Vec<Vec<char>>,
    /// The formal qubit arguments.
    pub qargs: Vec<Vec<char>>,
    /// The body's statements, trimmed.
    pub body: Vec<Vec<char>>,
}

/// The content of a [`GateDef`].
pub struct GateDefV {
    pub params: Seq<Seq<char>>,
    pub qargs: Seq<Seq<char>>,
    pub body: Seq<Seq<char>>,
}

impl View for GateDef {
    type V = GateDefV;

    open spec fn view(&self) -> GateDefV {
        GateDefV { params: names_of(self.params@), qargs: names_of(self.qargs@), body: names_of(self.body@) }
    }
}

/// `gate name(params) qargs { body }`: the declared name and declaration, or
/// what is wrong with it.
pub open spec fn gate_def_spec(stmt: Seq<char>) -> Result<(Seq<char>, GateDefV), Seq<char>> {
    match strip_prefix(stmt, "gate"@) {
        None => Err(about("malformed gate declaration `"@, stmt)),
        Some(rest) => match first_index(rest, '{') {
            None => Err(about("gate declaration needs a `{ ... }` body: `"@, stmt)),
            Some(open) => match last_index(rest, '}') {
                None => Err(about("gate declaration needs `}`: `"@, stmt)),
                Some(close) => if close < open {
                    Err(about("malformed gate declaration `"@, stmt))
                } else {
                    let (head, qargs_text) = split_head_spec(trim(rest.take(open)));
                    let (name, params_text) = parse_head_spec(head);
                    if name.len() == 0 {
                        Err(about("gate declaration needs a name: `"@, stmt))
                    } else {
                        let pt = match params_text { Some(p) => p, None => Seq::empty() };
                        match ids_spec(pt, "parameter"@, stmt) {
                            Err(e) => Err(e),
                            Ok(params) => match ids_spec(qargs_text, "qubit argument"@, stmt) {
                                Err(e) => Err(e),
                                Ok(qargs) => if qargs.len() == 0 {
                                    Err("`gate "@ + name + "` needs at least one qubit argument"@)
                                } else {
                                    Ok((name, GateDefV {
                                        params,
                                        qargs,
                                        body: trim_nonempty(split_on(rest.subrange(open + 1, close), ';')),
                                    }))
                                },
                            },
                        }
                    }
                },
            },
        },
    }
}

/// Parse `gate name(params) qargs { body }` into its declaration.
pub fn parse_gate_def(stmt: &[char]) -> (r: Result<(Vec<char>, GateDef), Vec<char>>)
    ensures
        match r {
            Ok((n, d)) => gate_def_spec(stmt@) == Ok::<(Seq<char>, GateDefV), Seq<char>>((n@, d@)),
            Err(m) => gate_def_spec(stmt@) == Err::<(Seq<char>, GateDefV), Seq<char>>(m@),
        },
{
    let rest = match strip_prefix_chars(stmt, "gate") {
        Some(r) => r,
        None => return Err(cat3("malformed gate declaration `", stmt, "`")),
    };
    let open = match find(rest.as_slice(), '{') {
        Some(o) => o,
        None => return Err(cat3("gate declaration needs a `{ ... }` body: `", stmt, "`")),
    };
    let close = match rfind(rest.as_slice(), '}') {
        Some(c) => c,
        None => return Err(cat3("gate declaration needs `}`: `", stmt, "`")),
    };
    if close < open {
        return Err(cat3("malformed gate declaration `", stmt, "`"));
    }
    let before = copy_range(rest.as_slice(), 0, open);
    proof {
        assert(before@ == rest@.take(open as int));
    }
    let (head, qargs_text) = split_head(trim_vec(before.as_slice()).as_slice());
    let (name, params_text) = parse_head(head.as_slice());
    if name.len() == 0 {
        return Err(cat3("gate declaration needs a name: `", stmt, "`"));
    }
    let pt = match params_text {
        Some(p) => p,
        None => Vec::new(),
    };
    proof {
        assert(pt@ == (match parse_head_spec(head@).1 { Some(p) => p, None => Seq::<char>::empty() }));
    }
    let params = parse_identifiers(pt.as_slice(), "parameter", stmt)?;
    let qargs = parse_identifiers(qargs_text.as_slice(), "qubit argument", stmt)?;
    if qargs.len() == 0 {
        proof {
            assert(names_of(qargs@).len() == 0);
        }
        return Err(cat3("`gate ", name.as_slice(), "` needs at least one qubit argument"));
    }
    let inside = copy_range(rest.as_slice(), open + 1, close);
    let body = keep_trimmed(&split_char(inside.as_slice(), ';'));
    Ok((name, GateDef { params, qargs, body }))
}

/// A table of declarations read as names and contents.
pub open spec fn defs_of(v: Seq<(Vec<char>, GateDef)>) -> Seq<(Seq<char>, GateDefV)> {
    v.map_values(|e: (Vec<char>, GateDef)| (e.0@, e.1@))
}

/// The declaration called `name`, if any (names are unique in any table the
/// importer builds).
pub open spec fn lookup_def(defs: Seq<(Seq<char>, GateDefV)>, name: Seq<char>) -> Option<GateDefV>
    decreases defs.len(),
{
    if defs.len() == 0 {
        None
    } else if defs.last().0 == name {
        Some(defs.last().1)
    } else {
        lookup_def(defs.drop_last(), name)
    }
}

/// The index of the declaration called `name`.
pub fn find_def(defs: &Vec<(Vec<char>, GateDef)>, name: &[char]) -> (r: Option<usize>)
    ensures
        match r {
            Some(i) => i < defs@.len() && lookup_def(defs_of(defs@), name@) == Some(defs_of(defs@)[i as int].1),
            None => lookup_def(defs_of(defs@), name@) is None,
        },
{
    let ghost dv = defs_of(defs@);
    let mut k = defs.len();
    proof {
        assert(dv.take(k as int) =~= dv);
    }
    while k > 0
        invariant
            k <= defs@.len(),
            dv == defs_of(defs@),
            lookup_def(dv, name@) == lookup_def(dv.take(k as int), name@),
        decreases k,
    {
        proof {
            assert(dv.take(k as int).drop_last() == dv.take(k - 1));
            assert(dv.take(k as int).last() == dv[k - 1]);
        }
        if same(defs[k - 1].0.as_slice(), name) {
            return Some(k - 1);
        }
        k = k - 1;
    }
    None
}

// ---------------------------------------------------------------------------
// Angles and the expansion of calls.
// ---------------------------------------------------------------------------

/// An angle written as `text` in `stmt`, parsed to `e`.
pub open spec fn angle_in(text: Seq<char>, e: ExprV, stmt: Seq<char>) -> AngleV {
    AngleV { expr: e, text, stmt: Some(stmt), line: None }
}

/// The angles of the comma-separated `pieces` from `k` on, after `acc`, each
/// an expression over `names`.
pub open spec fn angles_from(
    pieces: Seq<Seq<char>>,
    k: int,
    acc: Seq<AngleV>,
    names: Seq<Seq<char>>,
    stmt: Seq<char>,
) -> Result<Seq<AngleV>, Seq<char>>
    decreases pieces.len() - k,
{
    if k < 0 || k >= pieces.len() {
        Ok(acc)
    } else {
        let t = trim(pieces[k]);
        match parse_expr_spec(t, names) {
            Ok(e) => angles_from(pieces, k + 1, acc.push(angle_in(t, e, stmt)), names, stmt),
            Err(m) => Err(m + " in `"@ + stmt + "`"@),
        }
    }
}

/// A gate's parenthesised angle list, each an expression over `names`.
pub open spec fn angle_list_spec(
    params: Option<Seq<char>>,
    names: Seq<Seq<char>>,
    stmt: Seq<char>,
) -> Result<Seq<AngleV>, Seq<char>> {
    match params {
        Some(p) => if trim(p).len() > 0 {
            angles_from(split_on(p, ','), 0, Seq::empty(), names, stmt)
        } else {
            Ok(Seq::empty())
        },
        None => Ok(Seq::empty()),
    }
}

/// Parse a gate's parenthesised angle list against the names `names`.
pub fn parse_angle_list(params: &Option<Vec<char>>, names: &[Vec<char>], stmt: &[char]) -> (r: Result<Vec<Angle>, Vec<char>>)
    ensures
        match r {
            Ok(v) => angle_list_spec(opt_chars(*params), names_of(names@), stmt@) == Ok::<Seq<AngleV>, Seq<char>>(angles_v(v@)),
            Err(m) => angle_list_spec(opt_chars(*params), names_of(names@), stmt@) == Err::<Seq<AngleV>, Seq<char>>(m@),
        },
{
    let mut out: Vec<Angle> = Vec::new();
    proof {
        assert(angles_v(out@) =~= Seq::<AngleV>::empty());
    }
    let p = match params {
        Some(p) => p,
        None => return Ok(out),
    };
    if trim_vec(p.as_slice()).len() == 0 {
        return Ok(out);
    }
    let pieces = split_char(p.as_slice(), ',');
    let ghost pv = pieces@.map_values(|x: Vec<char>| x@);
    let mut k: usize = 0;
    while k < pieces.len()
        invariant
            k <= pieces@.len(),
            pv == pieces@.map_values(|x: Vec<char>| x@),
            angle_list_spec(opt_chars(*params), names_of(names@), stmt@) == angles_from(
                pv,
                k as int,
                angles_v(out@),
                names_of(names@),
                stmt@,
            ),
        decreases pieces@.len() - k,
    {
        let t = trim_vec(pieces[k].as_slice());
        proof {
            assert(pv[k as int] == pieces@[k as int]@);
        }
        match parse_expr(t.as_slice(), names) {
            Ok(e) => {
                let ghost before = angles_v(out@);
                let a = Angle { expr: e, text: t, stmt: Some(copy_chars_of(stmt)), line: None };
                out.push(a);
                proof {
                    assert(angles_v(out@) =~= before.push(a@));
                }
            },
            Err(m) => {
                let mut msg = m;
                push_all(&mut msg, chars_of(" in `").as_slice());
                push_all(&mut msg, stmt);
                push_all(&mut msg, chars_of("`").as_slice());
                return Err(msg);
            },
        }
        k = k + 1;
    }
    Ok(out)
}

/// A copy of `s`.
pub fn copy_chars_of(s: &[char]) -> (r: Vec<char>)
    ensures
        r@ == s@,
{
    let r = copy_range(s, 0, s.len());
    proof {
        assert(r@ =~= s@);
    }
    r
}

/// The expressions of a list of angle contents.
pub open spec fn exprs_v(a: Seq<AngleV>) -> Seq<ExprV> {
    a.map_values(|x: AngleV| x.expr)
}

/// `a` with each expression's variables in `names` replaced by `vals`.
pub open spec fn substituted(a: Seq<AngleV>, names: Seq<Seq<char>>, vals: Seq<ExprV>) -> Seq<AngleV> {
    a.map_values(|x: AngleV| AngleV { expr: subst(x.expr, names, vals), ..x })
}

/// Substitute the actual angles `vals` for the formal parameters `names` in
/// each of `a`.
pub fn substitute_all(a: &Vec<Angle>, names: &Vec<Vec<char>>, vals: &[Angle]) -> (r: Vec<Angle>)
    ensures
        angles_v(r@) == substituted(angles_v(a@), names_of(names@), exprs_v(angles_v(vals@))),
{
    proof {
        assert(exprs_v(angles_v(vals@)) =~= exprs_of(vals@));
    }
    let ghost want = substituted(angles_v(a@), names_of(names@), exprs_v(angles_v(vals@)));
    let mut out: Vec<Angle> = Vec::new();
    let mut k: usize = 0;
    while k < a.len()
        invariant
            k <= a@.len(),
            want == substituted(angles_v(a@), names_of(names@), exprs_v(angles_v(vals@))),
            exprs_v(angles_v(vals@)) == exprs_of(vals@),
            out@.len() == k,
            forall|i: int| 0 <= i < k ==> #[trigger] out@[i]@ == want[i],
        decreases a@.len() - k,
    {
        let x = &a[k];
        let e = substitute(&x.expr, names.as_slice(), vals);
        out.push(Angle { expr: e, text: copy_chars(&x.text), stmt: copy_opt_chars(&x.stmt), line: x.line });
        k = k + 1;
    }
    proof {
        assert(angles_v(out@) =~= want);
    }
    out
}

/// The qubits a body statement's operands name, from `pieces[k]` on after
/// `acc`: each a formal argument `qargs[i]`, standing for `q[i]`.
pub open spec fn body_qubits_from(
    pieces: Seq<Seq<char>>,
    k: int,
    acc: Seq<usize>,
    qargs: Seq<Seq<char>>,
    q: Seq<usize>,
    name: Seq<char>,
    s: Seq<char>,
) -> Result<Seq<usize>, Seq<char>>
    decreases pieces.len() - k,
{
    if k < 0 || k >= pieces.len() {
        Ok(acc)
    } else {
        match index_of_name(qargs, pieces[k]) {
            Some(i) => body_qubits_from(pieces, k + 1, acc.push(q[i]), qargs, q, name, s),
            None => Err("`"@ + pieces[k] + "` is not a qubit argument of `"@ + name + "` in `"@ + s + "`"@),
        }
    }
}

/// The qubits of a body statement's operand list.
pub open spec fn body_qubits_spec(
    ops: Seq<char>,
    qargs: Seq<Seq<char>>,
    q: Seq<usize>,
    name: Seq<char>,
    s: Seq<char>,
) -> Result<Seq<usize>, Seq<char>> {
    body_qubits_from(trim_nonempty(split_on(ops, ',')), 0, Seq::empty(), qargs, q, name, s)
}

/// Resolve a body statement's operands through the formal arguments.
pub fn body_qubits(ops: &[char], qargs: &Vec<Vec<char>>, q: &[usize], name: &[char], s: &[char]) -> (r: Result<Vec<usize>, Vec<char>>)
    requires
        qargs@.len() == q@.len(),
    ensures
        match r {
            Ok(v) => body_qubits_spec(ops@, names_of(qargs@), q@, name@, s@) == Ok::<Seq<usize>, Seq<char>>(v@),
            Err(m) => body_qubits_spec(ops@, names_of(qargs@), q@, name@, s@) == Err::<Seq<usize>, Seq<char>>(m@),
        },
{
    let pieces = keep_trimmed(&split_char(ops, ','));
    let ghost pv = pieces@.map_values(|x: Vec<char>| x@);
    let mut out: Vec<usize> = Vec::new();
    let mut k: usize = 0;
    while k < pieces.len()
        invariant
            k <= pieces@.len(),
            qargs@.len() == q@.len(),
            pv == pieces@.map_values(|x: Vec<char>| x@),
            pv == trim_nonempty(split_on(ops@, ',')),
            body_qubits_spec(ops@, names_of(qargs@), q@, name@, s@) == body_qubits_from(
                pv,
                k as int,
                out@,
                names_of(qargs@),
                q@,
                name@,
                s@,
            ),
        decreases pieces@.len() - k,
    {
        proof {
            assert(pv[k as int] == pieces@[k as int]@);
            assert(names_of(qargs@) == qargs@.map_values(|x: Vec<char>| x@));
        }
        match find_name(qargs.as_slice(), pieces[k].as_slice()) {
            Some(i) => {
                out.push(q[i]);
            },
            None => {
                let mut m = chars_of("`");
                push_all(&mut m, pieces[k].as_slice());
                push_all(&mut m, chars_of("` is not a qubit argument of `").as_slice());
                push_all(&mut m, name);
                push_all(&mut m, chars_of("` in `").as_slice());
                push_all(&mut m, s);
                push_all(&mut m, chars_of("`").as_slice());
                return Err(m);
            },
        }
        k = k + 1;
    }
    Ok(out)
}


/// `` `gate` calls nested more than 64 deep at `name`; is it recursive? ``
pub open spec fn msg_nested(name: Seq<char>) -> Seq<char> {
    "`gate` calls nested more than "@ + decimal(MAX_GATE_DEPTH as nat) + " deep at `"@ + name
        + "`; is it recursive?"@
}

/// `program expands to more than 100000 gates; is a `gate` recursive?`
pub open spec fn msg_budget() -> Seq<char> {
    "program expands to more than "@ + decimal(MAX_EXPANDED_OPS as nat) + " gates; is a `gate` recursive?"@
}

/// `` `name` takes Q qubit(s) and A angle(s), got q and a in `stmt` ``
pub open spec fn msg_call(name: Seq<char>, def: GateDefV, nq: nat, na: nat, stmt: Seq<char>) -> Seq<char> {
    "`"@ + name + "` takes "@ + decimal(def.qargs.len()) + " qubit(s) and "@ + decimal(def.params.len())
        + " angle(s), got "@ + decimal(nq) + " and "@ + decimal(na) + " in `"@ + stmt + "`"@
}

/// Applying gate `name` to the resolved angles `a` and qubits `q` in `c`,
/// at nesting `depth`, with `budget` built-in gates left: a declaration of
/// the file wins over the built-in of the same name. The circuit and the
/// budget left, or the error.
pub open spec fn apply_spec(
    c: CircuitV,
    defs: Seq<(Seq<char>, GateDefV)>,
    name: Seq<char>,
    a: Seq<AngleV>,
    q: Seq<usize>,
    budget: nat,
    depth: nat,
    stmt: Seq<char>,
) -> Result<(CircuitV, nat), Seq<char>>
    decreases MAX_GATE_DEPTH - depth, 2nat, 0nat,
{
    match lookup_def(defs, name) {
        Some(def) => expand_spec(c, defs, name, def, a, q, budget, depth, stmt),
        None => if budget == 0 {
            Err(msg_budget())
        } else {
            match builtin_spec(c, name, a, q, stmt) {
                Ok(c2) => Ok((c2, (budget - 1) as nat)),
                Err(e) => Err(e),
            }
        },
    }
}

/// Expanding a call of the declaration `def`.
pub open spec fn expand_spec(
    c: CircuitV,
    defs: Seq<(Seq<char>, GateDefV)>,
    name: Seq<char>,
    def: GateDefV,
    a: Seq<AngleV>,
    q: Seq<usize>,
    budget: nat,
    depth: nat,
    stmt: Seq<char>,
) -> Result<(CircuitV, nat), Seq<char>>
    decreases MAX_GATE_DEPTH - depth, 1nat, 0nat,
{
    if depth >= MAX_GATE_DEPTH {
        Err(msg_nested(name))
    } else if def.params.len() != a.len() || def.qargs.len() != q.len() {
        Err(msg_call(name, def, q.len(), a.len(), stmt))
    } else {
        body_spec(c, defs, name, def, a, q, 0, budget, depth)
    }
}

/// The body statements of `def` from `k` on, applied with the actual angles
/// substituted for the parameters and the actual qubits for the arguments.
/// `barrier` is skipped.
pub open spec fn body_spec(
    c: CircuitV,
    defs: Seq<(Seq<char>, GateDefV)>,
    name: Seq<char>,
    def: GateDefV,
    a: Seq<AngleV>,
    q: Seq<usize>,
    k: int,
    budget: nat,
    depth: nat,
) -> Result<(CircuitV, nat), Seq<char>>
    decreases MAX_GATE_DEPTH - depth, 0nat, def.body.len() - k,
{
    if k < 0 || k >= def.body.len() {
        Ok((c, budget))
    } else if depth >= MAX_GATE_DEPTH {
        Err(msg_nested(name))
    } else {
        let s = def.body[k];
        let (head, ops) = split_head_spec(s);
        let (bname, bparams) = parse_head_spec(head);
        if bname == "barrier"@ {
            body_spec(c, defs, name, def, a, q, k + 1, budget, depth)
        } else {
            match angle_list_spec(bparams, def.params, s) {
                Err(e) => Err(e),
                Ok(ba) => match body_qubits_spec(ops, def.qargs, q, name, s) {
                    Err(e) => Err(e),
                    Ok(bq) => match apply_spec(
                        c,
                        defs,
                        bname,
                        substituted(ba, def.params, exprs_v(a)),
                        bq,
                        budget,
                        depth + 1,
                        s,
                    ) {
                        Err(e) => Err(e),
                        Ok((c2, b2)) => body_spec(c2, defs, name, def, a, q, k + 1, b2, depth),
                    },
                },
            }
        }
    }
}

/// Apply a gate whose angles and qubits are already resolved, expanding it
/// if it is a declaration of the file, otherwise applying the built-in.
pub fn apply_resolved(
    c: &mut Circuit,
    name: &[char],
    a: &[Angle],
    q: &[usize],
    defs: &Vec<(Vec<char>, GateDef)>,
    budget: &mut usize,
    depth: usize,
    stmt: &[char],
) -> (r: Result<(), Vec<char>>)
    ensures
        match r {
            Ok(()) => apply_spec(old(c)@, defs_of(defs@), name@, angles_v(a@), q@, *old(budget) as nat, depth as nat, stmt@)
                == Ok::<(CircuitV, nat), Seq<char>>((final(c)@, *final(budget) as nat)),
            Err(m) => apply_spec(old(c)@, defs_of(defs@), name@, angles_v(a@), q@, *old(budget) as nat, depth as nat, stmt@)
                == Err::<(CircuitV, nat), Seq<char>>(m@) && final(c)@ == old(c)@ && *final(budget) == *old(budget),
        },
    decreases MAX_GATE_DEPTH - depth, 1nat,
{
    match find_def(defs, name) {
        Some(i) => expand_user_gate(c, name, &defs[i].1, a, q, defs, budget, depth, stmt),
        None => {
            if *budget == 0 {
                let mut m = chars_of("program expands to more than ");
                push_decimal(&mut m, MAX_EXPANDED_OPS as u64);
                push_all(&mut m, chars_of(" gates; is a `gate` recursive?").as_slice());
                return Err(m);
            }
            *budget = *budget - 1;
            match apply_builtin(c, name, a, q, stmt) {
                Ok(()) => Ok(()),
                Err(m) => {
                    *budget = *budget + 1;
                    Err(m)
                },
            }
        },
    }
}

/// Substitute a call's actual angles and qubits into a declaration's body and
/// apply each statement.
pub fn expand_user_gate(
    c: &mut Circuit,
    name: &[char],
    def: &GateDef,
    a: &[Angle],
    q: &[usize],
    defs: &Vec<(Vec<char>, GateDef)>,
    budget: &mut usize,
    depth: usize,
    stmt: &[char],
) -> (r: Result<(), Vec<char>>)
    ensures
        match r {
            Ok(()) => expand_spec(old(c)@, defs_of(defs@), name@, def@, angles_v(a@), q@, *old(budget) as nat, depth as nat, stmt@)
                == Ok::<(CircuitV, nat), Seq<char>>((final(c)@, *final(budget) as nat)),
            Err(m) => expand_spec(old(c)@, defs_of(defs@), name@, def@, angles_v(a@), q@, *old(budget) as nat, depth as nat, stmt@)
                == Err::<(CircuitV, nat), Seq<char>>(m@) && final(c)@ == old(c)@ && *final(budget) == *old(budget),
        },
    decreases MAX_GATE_DEPTH - depth, 0nat,
{
    if depth >= MAX_GATE_DEPTH {
        let mut m = chars_of("`gate` calls nested more than ");
        push_decimal(&mut m, MAX_GATE_DEPTH as u64);
        push_all(&mut m, chars_of(" deep at `").as_slice());
        push_all(&mut m, name);
        push_all(&mut m, chars_of("`; is it recursive?").as_slice());
        return Err(m);
    }
    if def.params.len() != a.len() || def.qargs.len() != q.len() {
        let mut m = chars_of("`");
        push_all(&mut m, name);
        push_all(&mut m, chars_of("` takes ").as_slice());
        push_decimal(&mut m, def.qargs.len() as u64);
        push_all(&mut m, chars_of(" qubit(s) and ").as_slice());
        push_decimal(&mut m, def.params.len() as u64);
        push_all(&mut m, chars_of(" angle(s), got ").as_slice());
        push_decimal(&mut m, q.len() as u64);
        push_all(&mut m, chars_of(" and ").as_slice());
        push_decimal(&mut m, a.len() as u64);
        push_all(&mut m, chars_of(" in `").as_slice());
        push_all(&mut m, stmt);
        push_all(&mut m, chars_of("`").as_slice());
        return Err(m);
    }
    let ghost dv = defs_of(defs@);
    let ghost av = angles_v(a@);
    let ghost c0 = c@;
    let start = c.op_count();
    let saved = *budget;
    let mut k: usize = 0;
    while k < def.body.len()
        invariant
            depth < MAX_GATE_DEPTH,
            k <= def.body@.len(),
            dv == defs_of(defs@),
            av == angles_v(a@),
            def.params@.len() == a@.len(),
            def.qargs@.len() == q@.len(),
            c0 == old(c)@,
            saved == *old(budget),
            start == c0.ops.len(),
            start <= c@.ops.len(),
            c@.n_qubits == c0.n_qubits,
            c@.ops.take(start as int) == c0.ops,
            expand_spec(old(c)@, dv, name@, def@, av, q@, *old(budget) as nat, depth as nat, stmt@) == body_spec(
                c@,
                dv,
                name@,
                def@,
                av,
                q@,
                k as int,
                *budget as nat,
                depth as nat,
            ),
        decreases def.body@.len() - k,
    {
        let s = &def.body[k];
        proof {
            assert(def@.body[k as int] == s@);
        }
        let (head, ops) = split_head(s.as_slice());
        let (bname, bparams) = parse_head(head.as_slice());
        if same(bname.as_slice(), chars_of("barrier").as_slice()) {
            k = k + 1;
            continue;
        }
        let parsed = match parse_angle_list(&bparams, def.params.as_slice(), s.as_slice()) {
            Ok(p) => p,
            Err(e) => {
                undo(c, start, budget, saved, Ghost(c0));
                return Err(e);
            },
        };
        let ba = substitute_all(&parsed, &def.params, a);
        let bq = match body_qubits(ops.as_slice(), &def.qargs, q, name, s.as_slice()) {
            Ok(v) => v,
            Err(e) => {
                undo(c, start, budget, saved, Ghost(c0));
                return Err(e);
            },
        };
        let ghost before = c@;
        let ghost b_before = *budget;
        match apply_resolved(c, bname.as_slice(), ba.as_slice(), bq.as_slice(), defs, budget, depth + 1, s.as_slice()) {
            Ok(()) => {
                proof {
                    crate::laws::lemma_apply_bounded(
                        before,
                        dv,
                        bname@,
                        angles_v(ba@),
                        bq@,
                        b_before as nat,
                        (depth + 1) as nat,
                        s@,
                    );
                    assert(c@.ops.take(start as int) =~= before.ops.take(before.ops.len() as int).take(start as int));
                }
            },
            Err(e) => {
                undo(c, start, budget, saved, Ghost(c0));
                return Err(e);
            },
        }
        k = k + 1;
    }
    Ok(())
}

/// Take back what the statements of a failed expansion appended, and the
/// budget they spent.
fn undo(c: &mut Circuit, start: usize, budget: &mut usize, saved: usize, Ghost(c0): Ghost<CircuitV>)
    requires
        start == c0.ops.len(),
        start <= old(c)@.ops.len(),
        old(c)@.n_qubits == c0.n_qubits,
        old(c)@.ops.take(start as int) == c0.ops,
    ensures
        final(c)@ == c0,
        *final(budget) == saved,
{
    c.truncate_ops(start);
    *budget = saved;
}


/// A call appends gates only, on the same register.
pub proof fn lemma_apply_gates(
    c: CircuitV,
    defs: Seq<(Seq<char>, GateDefV)>,
    name: Seq<char>,
    a: Seq<AngleV>,
    q: Seq<usize>,
    budget: nat,
    depth: nat,
    stmt: Seq<char>,
)
    requires
        gates_only(c.ops),
    ensures
        apply_spec(c, defs, name, a, q, budget, depth, stmt) matches Ok((c2, _)) ==> gates_only(c2.ops)
            && c2.n_qubits == c.n_qubits,
    decreases MAX_GATE_DEPTH - depth, 2nat, 0nat,
{
    match lookup_def(defs, name) {
        Some(def) => lemma_expand_gates(c, defs, name, def, a, q, budget, depth, stmt),
        None => match builtin_of(name) {
            Some(b) => lemma_effect_gates(c, b, a, q),
            None => {},
        },
    }
}

/// An expansion appends gates only, on the same register.
pub proof fn lemma_expand_gates(
    c: CircuitV,
    defs: Seq<(Seq<char>, GateDefV)>,
    name: Seq<char>,
    def: GateDefV,
    a: Seq<AngleV>,
    q: Seq<usize>,
    budget: nat,
    depth: nat,
    stmt: Seq<char>,
)
    requires
        gates_only(c.ops),
    ensures
        expand_spec(c, defs, name, def, a, q, budget, depth, stmt) matches Ok((c2, _)) ==> gates_only(c2.ops)
            && c2.n_qubits == c.n_qubits,
    decreases MAX_GATE_DEPTH - depth, 1nat, 0nat,
{
    if depth < MAX_GATE_DEPTH && def.params.len() == a.len() && def.qargs.len() == q.len() {
        lemma_body_gates(c, defs, name, def, a, q, 0, budget, depth);
    }
}

/// A body appends gates only, on the same register.
pub proof fn lemma_body_gates(
    c: CircuitV,
    defs: Seq<(Seq<char>, GateDefV)>,
    name: Seq<char>,
    def: GateDefV,
    a: Seq<AngleV>,
    q: Seq<usize>,
    k: int,
    budget: nat,
    depth: nat,
)
    requires
        gates_only(c.ops),
    ensures
        body_spec(c, defs, name, def, a, q, k, budget, depth) matches Ok((c2, _)) ==> gates_only(c2.ops)
            && c2.n_qubits == c.n_qubits,
    decreases MAX_GATE_DEPTH - depth, 0nat, def.body.len() - k,
{
    if 0 <= k < def.body.len() && depth < MAX_GATE_DEPTH {
        let s = def.body[k];
        let (head, ops) = split_head_spec(s);
        let (bname, bparams) = parse_head_spec(head);
        if bname == "barrier"@ {
            lemma_body_gates(c, defs, name, def, a, q, k + 1, budget, depth);
        } else {
            match angle_list_spec(bparams, def.params, s) {
                Err(_) => {},
                Ok(ba) => match body_qubits_spec(ops, def.qargs, q, name, s) {
                    Err(_) => {},
                    Ok(bq) => {
                        let sa = substituted(ba, def.params, exprs_v(a));
                        lemma_apply_gates(c, defs, bname, sa, bq, budget, depth + 1, s);
                        match apply_spec(c, defs, bname, sa, bq, budget, depth + 1, s) {
                            Ok((c2, b2)) => lemma_body_gates(c2, defs, name, def, a, q, k + 1, b2, depth),
                            Err(_) => {},
                        }
                    },
                },
            }
        }
    }
}

// ---------------------------------------------------------------------------
// The import passes.
// ---------------------------------------------------------------------------

/// Largest register the importer will build: a dense state vector needs
/// `16 * 2^n` bytes, so this caps the memory a malformed `qreg` can ask for.
pub const MAX_QUBITS: usize = 30;

/// The quantum registers declared by `stmts[k..]`, after `regs` holding
/// `total` qubits: each placed after the ones before it.
pub open spec fn qregs_from(
    stmts: Seq<Seq<char>>,
    k: int,
    regs: Seq<(Seq<char>, Reg)>,
    total: nat,
) -> Result<(Seq<(Seq<char>, Reg)>, nat), Seq<char>>
    decreases stmts.len() - k,
{
    if k < 0 || k >= stmts.len() {
        Ok((regs, total))
    } else if keyword_of(stmts[k]) == "qreg"@ {
        match reg_decl_spec(stmts[k], "qreg"@) {
            Err(e) => Err(e),
            Ok((name, size)) => if lookup_reg(regs, name) is Some {
                Err("duplicate register `"@ + name + "`"@)
            } else if size > MAX_QUBITS || total + size > MAX_QUBITS {
                Err("register total exceeds the maximum of "@ + decimal(MAX_QUBITS as nat) + " qubits"@)
            } else {
                qregs_from(stmts, k + 1, regs.push((name, Reg { offset: total as usize, size })), (total + size) as nat)
            },
        }
    } else {
        qregs_from(stmts, k + 1, regs, total)
    }
}

/// The classical registers declared by `stmts[k..]`, after `cregs` holding
/// `total` bits, in one bit space as wide as the `n` qubits.
pub open spec fn cregs_from(
    stmts: Seq<Seq<char>>,
    k: int,
    cregs: Seq<(Seq<char>, Reg)>,
    total: nat,
    n: nat,
) -> Result<Seq<(Seq<char>, Reg)>, Seq<char>>
    decreases stmts.len() - k,
{
    if k < 0 || k >= stmts.len() {
        Ok(cregs)
    } else if keyword_of(stmts[k]) == "creg"@ {
        match reg_decl_spec(stmts[k], "creg"@) {
            Err(e) => Err(e),
            Ok((name, size)) => if lookup_reg(cregs, name) is Some {
                Err("duplicate classical register `"@ + name + "`"@)
            } else if size > n || total + size > n {
                Err("classical registers total more than the "@ + decimal(n) + " qubits this engine models, at `"@
                    + stmts[k] + "`"@)
            } else {
                cregs_from(stmts, k + 1, cregs.push((name, Reg { offset: total as usize, size })), (total + size) as nat, n)
            },
        }
    } else {
        cregs_from(stmts, k + 1, cregs, total, n)
    }
}

/// The `gate` declarations of `stmts[k..]`, after `defs`.
pub open spec fn defs_from(
    stmts: Seq<Seq<char>>,
    k: int,
    defs: Seq<(Seq<char>, GateDefV)>,
) -> Result<Seq<(Seq<char>, GateDefV)>, Seq<char>>
    decreases stmts.len() - k,
{
    if k < 0 || k >= stmts.len() {
        Ok(defs)
    } else if keyword_of(stmts[k]) == "gate"@ {
        match gate_def_spec(stmts[k]) {
            Err(e) => Err(e),
            Ok((name, def)) => if lookup_def(defs, name) is Some {
                Err("duplicate `gate "@ + name + "` declaration"@)
            } else {
                defs_from(stmts, k + 1, defs.push((name, def)))
            },
        }
    } else {
        defs_from(stmts, k + 1, defs)
    }
}

/// Whether the apply pass skips a statement with this keyword: the header,
/// `include`, the declarations, and `barrier`.
pub open spec fn skipped(kw: Seq<char>) -> bool {
    kw == "OPENQASM"@ || kw == "include"@ || kw == "qreg"@ || kw == "creg"@ || kw == "barrier"@ || kw == "gate"@
}

/// Whether a statement with this keyword is something other than a gate call.
pub open spec fn not_a_gate(kw: Seq<char>) -> bool {
    skipped(kw) || kw == "measure"@ || kw == "reset"@ || kw == "if"@ || kw == "opaque"@
}

/// A gate call statement: its operands resolved through `regs`, its angles
/// parsed, then applied.
#[verifier::opaque]
pub open spec fn gate_spec(
    c: CircuitV,
    s: Seq<char>,
    regs: Seq<(Seq<char>, Reg)>,
    defs: Seq<(Seq<char>, GateDefV)>,
    budget: nat,
) -> Result<(CircuitV, nat), Seq<char>> {
    let (head, ops) = split_head_spec(s);
    let (name, params) = parse_head_spec(head);
    match operands_spec(ops, regs) {
        Err(e) => Err(e),
        Ok(q) => match angle_list_spec(params, Seq::empty(), s) {
            Err(e) => Err(e),
            Ok(a) => apply_spec(c, defs, name, a, q, budget, 0, s),
        },
    }
}

/// `measure source -> target`: each qubit of the source into the matching
/// classical bit of the target.
#[verifier::opaque]
pub open spec fn measure_spec(
    c: CircuitV,
    s: Seq<char>,
    regs: Seq<(Seq<char>, Reg)>,
    cregs: Seq<(Seq<char>, Reg)>,
) -> Result<CircuitV, Seq<char>> {
    match strip_prefix(s, "measure"@) {
        None => Err(about("malformed measurement `"@, s)),
        Some(rest) => match split_once_pair(rest, '-', '>') {
            None => Err(about("measurement needs `-> target`: `"@, s)),
            Some((source, dest)) => if trim(dest).len() == 0 {
                Err(about("measurement needs a classical target: `"@, s))
            } else {
                match resolve_spec(trim(source), regs, s) {
                    Err(e) => Err(e),
                    Ok(qs) => match resolve_spec(trim(dest), cregs, s) {
                        Err(e) => Err(e),
                        Ok(bs) => if qs.len() != bs.len() {
                            Err("cannot measure "@ + decimal(qs.len()) + " qubit(s) onto "@ + decimal(bs.len())
                                + " classical bit(s) in `"@ + s + "`"@)
                        } else {
                            Ok(sp_measure_into(c, qs, bs))
                        },
                    },
                }
            },
        },
    }
}

/// `reset q[i]` or `reset q`.
#[verifier::opaque]
pub open spec fn reset_spec(c: CircuitV, s: Seq<char>, regs: Seq<(Seq<char>, Reg)>) -> Result<CircuitV, Seq<char>> {
    match strip_prefix(s, "reset"@) {
        None => Err(about("malformed reset `"@, s)),
        Some(rest) => match resolve_spec(trim(rest), regs, s) {
            Err(e) => Err(e),
            Ok(qs) => Ok(sp_reset_each(c, qs)),
        },
    }
}

/// `2^n`
pub open spec fn two_to(n: nat) -> nat
    decreases n,
{
    if n == 0 {
        1
    } else {
        2 * two_to((n - 1) as nat)
    }
}

/// `v * 2^k`, the value `v` of a register placed `k` bits up.
pub open spec fn shifted(v: nat, k: nat) -> nat
    decreases k,
{
    if k == 0 {
        v
    } else {
        2 * shifted(v, (k - 1) as nat)
    }
}

pub proof fn lemma_two_to_mono(i: nat, j: nat)
    requires
        i <= j,
    ensures
        two_to(i) <= two_to(j),
    decreases j,
{
    if i < j {
        lemma_two_to_mono(i, (j - 1) as nat);
    }
}

pub proof fn lemma_shifted_below(v: nat, m: nat, k: nat)
    requires
        v < two_to(m),
    ensures
        shifted(v, k) < two_to(m + k),
    decreases k,
{
    if k > 0 {
        lemma_shifted_below(v, m, (k - 1) as nat);
        assert(two_to(m + k) == 2 * two_to((m + k - 1) as nat));
    }
}

pub proof fn lemma_two_to_thirty()
    ensures
        two_to(30) == 0x4000_0000,
{
    reveal_with_fuel(two_to, 31);
}

/// `c` after a gate guarded on classical register `creg` equalling `v`: the
/// block `ops` runs when the whole classical register reads `v` placed at the
/// register's offset, the bits outside it being clear. A value the register
/// cannot hold never matches, so such a guard appends nothing.
pub open spec fn guarded(c: CircuitV, v: u64, creg: Reg, ops: Seq<OpV>) -> CircuitV {
    if v >= two_to(creg.size as nat) || ops.len() == 0 {
        c
    } else {
        with_op(c, OpV::Conditional { value: shifted(v as nat, creg.offset as nat) as u64, ops: gates_of(ops) })
    }
}

/// `if (c==value) gate`: that call applied under a guard on the classical
/// register `c`.
#[verifier::opaque]
pub open spec fn if_spec(
    c: CircuitV,
    s: Seq<char>,
    regs: Seq<(Seq<char>, Reg)>,
    cregs: Seq<(Seq<char>, Reg)>,
    defs: Seq<(Seq<char>, GateDefV)>,
    budget: nat,
) -> Result<(CircuitV, nat), Seq<char>> {
    let needs = about("`if` needs `(c==value)`: `"@, s);
    match strip_prefix(s, "if"@) {
        None => Err(needs),
        Some(r0) => {
            let r = trim(r0);
            if r.len() == 0 || r[0] != '(' {
                Err(needs)
            } else {
                match first_index(r, ')') {
                    None => Err(needs),
                    Some(close) => {
                        let body = trim(r.skip(close + 1));
                        match split_once_pair(r.subrange(1, close), '=', '=') {
                            None => Err(about("`if` must compare with `==`: `"@, s)),
                            Some((lhs, rhs)) => match lookup_reg(cregs, trim(lhs)) {
                                None => Err("unknown classical register `"@ + trim(lhs) + "` in `"@ + s + "`"@),
                                Some(creg) => match parse_u64_spec(trim(rhs)) {
                                    None => Err("`if` value must be a non-negative integer, got `"@ + trim(rhs)
                                        + "` in `"@ + s + "`"@),
                                    Some(v) => if body.len() == 0 {
                                        Err(about("`if` has no statement to guard: `"@, s))
                                    } else if not_a_gate(keyword_of(body)) {
                                        Err(about("only a gate may be conditional: `"@, s))
                                    } else {
                                        match gate_spec(CircuitV { n_qubits: c.n_qubits, ops: Seq::empty() }, body, regs, defs, budget) {
                                            Err(e) => Err(e),
                                            Ok((blk, b2)) => Ok((guarded(c, v, creg, blk.ops), b2)),
                                        }
                                    },
                                },
                            },
                        }
                    },
                }
            }
        },
    }
}

/// The statements `stmts[k..]` applied to `c` with `budget` built-in gates
/// left.
pub open spec fn run_from(
    stmts: Seq<Seq<char>>,
    k: int,
    regs: Seq<(Seq<char>, Reg)>,
    cregs: Seq<(Seq<char>, Reg)>,
    defs: Seq<(Seq<char>, GateDefV)>,
    c: CircuitV,
    budget: nat,
) -> Result<CircuitV, Seq<char>>
    decreases stmts.len() - k,
{
    if k < 0 || k >= stmts.len() {
        Ok(c)
    } else {
        let s = stmts[k];
        let kw = keyword_of(s);
        if skipped(kw) {
            run_from(stmts, k + 1, regs, cregs, defs, c, budget)
        } else if kw == "measure"@ {
            match measure_spec(c, s, regs, cregs) {
                Err(e) => Err(e),
                Ok(c2) => run_from(stmts, k + 1, regs, cregs, defs, c2, budget),
            }
        } else if kw == "reset"@ {
            match reset_spec(c, s, regs) {
                Err(e) => Err(e),
                Ok(c2) => run_from(stmts, k + 1, regs, cregs, defs, c2, budget),
            }
        } else if kw == "opaque"@ {
            Err("unsupported OpenQASM feature `"@ + kw + "`"@)
        } else if kw == "if"@ {
            match if_spec(c, s, regs, cregs, defs, budget) {
                Err(e) => Err(e),
                Ok((c2, b2)) => run_from(stmts, k + 1, regs, cregs, defs, c2, b2),
            }
        } else {
            match gate_spec(c, s, regs, defs, budget) {
                Err(e) => Err(e),
                Ok((c2, b2)) => run_from(stmts, k + 1, regs, cregs, defs, c2, b2),
            }
        }
    }
}

/// What importing the OpenQASM source `src` gives: comments stripped, the
/// statements split, registers and declarations collected, then every
/// statement applied in order to a circuit over all the declared qubits.
pub open spec fn qasm_spec(src: Seq<char>) -> Result<CircuitV, Seq<char>> {
    match statements_of(strip_from(src, 0, false)) {
        Err(e) => Err(e),
        Ok(stmts) => match qregs_from(stmts, 0, Seq::empty(), 0) {
            Err(e) => Err(e),
            Ok((regs, total)) => if total == 0 {
                Err("no `qreg` declared"@)
            } else {
                match cregs_from(stmts, 0, Seq::empty(), 0, total) {
                    Err(e) => Err(e),
                    Ok(cregs) => match defs_from(stmts, 0, Seq::empty()) {
                        Err(e) => Err(e),
                        Ok(defs) => run_from(
                            stmts,
                            0,
                            regs,
                            cregs,
                            defs,
                            CircuitV { n_qubits: total as usize, ops: Seq::empty() },
                            MAX_EXPANDED_OPS as nat,
                        ),
                    },
                }
            },
        },
    }
}


/// A gate call statement appends gates only, on the same register.
pub proof fn lemma_gate_gates(
    c: CircuitV,
    s: Seq<char>,
    regs: Seq<(Seq<char>, Reg)>,
    defs: Seq<(Seq<char>, GateDefV)>,
    budget: nat,
)
    requires
        gates_only(c.ops),
    ensures
        gate_spec(c, s, regs, defs, budget) matches Ok((c2, _)) ==> gates_only(c2.ops) && c2.n_qubits == c.n_qubits,
{
    reveal(gate_spec);
    let (head, ops) = split_head_spec(s);
    let (name, params) = parse_head_spec(head);
    match operands_spec(ops, regs) {
        Err(_) => {},
        Ok(q) => match angle_list_spec(params, Seq::empty(), s) {
            Err(_) => {},
            Ok(a) => lemma_apply_gates(c, defs, name, a, q, budget, 0, s),
        },
    }
}

/// Collect the quantum registers, placing each after the ones before it.
fn collect_qregs(stmts: &Vec<Vec<char>>) -> (r: Result<(Vec<(Vec<char>, Reg)>, usize), Vec<char>>)
    ensures
        match r {
            Ok((regs, total)) => {
                &&& qregs_from(names_of(stmts@), 0, Seq::empty(), 0) == Ok::<(Seq<(Seq<char>, Reg)>, nat), Seq<char>>(
                    (regs_of(regs@), total as nat),
                )
                &&& total <= MAX_QUBITS
                &&& regs_bounded(regs_of(regs@), total as nat)
            },
            Err(m) => qregs_from(names_of(stmts@), 0, Seq::empty(), 0) == Err::<(Seq<(Seq<char>, Reg)>, nat), Seq<char>>(m@),
        },
{
    let ghost sv = names_of(stmts@);
    let mut regs: Vec<(Vec<char>, Reg)> = Vec::new();
    let mut total: usize = 0;
    let mut k: usize = 0;
    proof {
        assert(regs_of(regs@) =~= Seq::<(Seq<char>, Reg)>::empty());
    }
    while k < stmts.len()
        invariant
            k <= stmts@.len(),
            sv == names_of(stmts@),
            total <= MAX_QUBITS,
            regs_bounded(regs_of(regs@), total as nat),
            qregs_from(sv, 0, Seq::empty(), 0) == qregs_from(sv, k as int, regs_of(regs@), total as nat),
        decreases stmts@.len() - k,
    {
        let s = stmts[k].as_slice();
        proof {
            assert(sv[k as int] == s@);
        }
        if keyword_is(s, "qreg") {
            let (name, size) = parse_reg_decl(s, "qreg")?;
            if find_reg(&regs, name.as_slice()).is_some() {
                return Err(cat3("duplicate register `", name.as_slice(), "`"));
            }
            if size > MAX_QUBITS || total + size > MAX_QUBITS {
                let mut m = chars_of("register total exceeds the maximum of ");
                push_decimal(&mut m, MAX_QUBITS as u64);
                push_all(&mut m, chars_of(" qubits").as_slice());
                return Err(m);
            }
            let ghost before = regs_of(regs@);
            let ghost entry = (name@, Reg { offset: total, size });
            regs.push((name, Reg { offset: total, size }));
            proof {
                assert(regs_of(regs@) =~= before.push(entry));
            }
            total = total + size;
        }
        k = k + 1;
    }
    Ok((regs, total))
}

/// Collect the classical registers, in one bit space as wide as the `n`
/// qubits.
fn collect_cregs(stmts: &Vec<Vec<char>>, n: usize) -> (r: Result<Vec<(Vec<char>, Reg)>, Vec<char>>)
    requires
        n <= MAX_QUBITS,
    ensures
        match r {
            Ok(cregs) => {
                &&& cregs_from(names_of(stmts@), 0, Seq::empty(), 0, n as nat) == Ok::<Seq<(Seq<char>, Reg)>, Seq<char>>(
                    regs_of(cregs@),
                )
                &&& regs_bounded(regs_of(cregs@), n as nat)
            },
            Err(m) => cregs_from(names_of(stmts@), 0, Seq::empty(), 0, n as nat) == Err::<Seq<(Seq<char>, Reg)>, Seq<char>>(m@),
        },
{
    let ghost sv = names_of(stmts@);
    let mut regs: Vec<(Vec<char>, Reg)> = Vec::new();
    let mut total: usize = 0;
    let mut k: usize = 0;
    proof {
        assert(regs_of(regs@) =~= Seq::<(Seq<char>, Reg)>::empty());
    }
    while k < stmts.len()
        invariant
            k <= stmts@.len(),
            sv == names_of(stmts@),
            n <= MAX_QUBITS,
            total <= n,
            regs_bounded(regs_of(regs@), total as nat),
            cregs_from(sv, 0, Seq::empty(), 0, n as nat) == cregs_from(sv, k as int, regs_of(regs@), total as nat, n as nat),
        decreases stmts@.len() - k,
    {
        let s = stmts[k].as_slice();
        proof {
            assert(sv[k as int] == s@);
        }
        if keyword_is(s, "creg") {
            let (name, size) = parse_reg_decl(s, "creg")?;
            if find_reg(&regs, name.as_slice()).is_some() {
                return Err(cat3("duplicate classical register `", name.as_slice(), "`"));
            }
            if size > n || total + size > n {
                let mut m = chars_of("classical registers total more than the ");
                push_decimal(&mut m, n as u64);
                push_all(&mut m, chars_of(" qubits this engine models, at `").as_slice());
                push_all(&mut m, s);
                push_all(&mut m, chars_of("`").as_slice());
                return Err(m);
            }
            let ghost before = regs_of(regs@);
            let ghost entry = (name@, Reg { offset: total, size });
            regs.push((name, Reg { offset: total, size }));
            proof {
                assert(regs_of(regs@) =~= before.push(entry));
            }
            total = total + size;
        }
        k = k + 1;
    }
    Ok(regs)
}

/// Collect the `gate` declarations, so a call may precede its declaration.
fn collect_defs(stmts: &Vec<Vec<char>>) -> (r: Result<Vec<(Vec<char>, GateDef)>, Vec<char>>)
    ensures
        match r {
            Ok(defs) => defs_from(names_of(stmts@), 0, Seq::empty()) == Ok::<Seq<(Seq<char>, GateDefV)>, Seq<char>>(
                defs_of(defs@),
            ),
            Err(m) => defs_from(names_of(stmts@), 0, Seq::empty()) == Err::<Seq<(Seq<char>, GateDefV)>, Seq<char>>(m@),
        },
{
    let ghost sv = names_of(stmts@);
    let mut defs: Vec<(Vec<char>, GateDef)> = Vec::new();
    let mut k: usize = 0;
    proof {
        assert(defs_of(defs@) =~= Seq::<(Seq<char>, GateDefV)>::empty());
    }
    while k < stmts.len()
        invariant
            k <= stmts@.len(),
            sv == names_of(stmts@),
            defs_from(sv, 0, Seq::empty()) == defs_from(sv, k as int, defs_of(defs@)),
        decreases stmts@.len() - k,
    {
        let s = stmts[k].as_slice();
        proof {
            assert(sv[k as int] == s@);
        }
        if keyword_is(s, "gate") {
            let (name, def) = parse_gate_def(s)?;
            if find_def(&defs, name.as_slice()).is_some() {
                return Err(cat3("duplicate `gate ", name.as_slice(), "` declaration"));
            }
            let ghost before = defs_of(defs@);
            let ghost entry = (name@, def@);
            defs.push((name, def));
            proof {
                assert(defs_of(defs@) =~= before.push(entry));
            }
        }
        k = k + 1;
    }
    Ok(defs)
}

/// Whether the apply pass skips the statement.
fn skips(s: &[char]) -> (r: bool)
    ensures
        r == skipped(keyword_of(s@)),
{
    keyword_is(s, "OPENQASM") || keyword_is(s, "include") || keyword_is(s, "qreg") || keyword_is(s, "creg")
        || keyword_is(s, "barrier") || keyword_is(s, "gate")
}

/// Whether the statement is something other than a gate call.
fn not_gate(s: &[char]) -> (r: bool)
    ensures
        r == not_a_gate(keyword_of(s@)),
{
    skips(s) || keyword_is(s, "measure") || keyword_is(s, "reset") || keyword_is(s, "if") || keyword_is(s, "opaque")
}

/// Parse and apply a gate call statement, resolving its operands against the
/// registers.
fn apply_gate(
    c: &mut Circuit,
    s: &[char],
    regs: &Vec<(Vec<char>, Reg)>,
    defs: &Vec<(Vec<char>, GateDef)>,
    budget: &mut usize,
) -> (r: Result<(), Vec<char>>)
    requires
        regs_bounded(regs_of(regs@), MAX_QUBITS as nat),
    ensures
        match r {
            Ok(()) => gate_spec(old(c)@, s@, regs_of(regs@), defs_of(defs@), *old(budget) as nat)
                == Ok::<(CircuitV, nat), Seq<char>>((final(c)@, *final(budget) as nat)),
            Err(m) => gate_spec(old(c)@, s@, regs_of(regs@), defs_of(defs@), *old(budget) as nat)
                == Err::<(CircuitV, nat), Seq<char>>(m@),
        },
{
    proof {
        reveal(gate_spec);
    }
    let (head, ops) = split_head(s);
    let (name, params) = parse_head(head.as_slice());
    let q = parse_operands(ops.as_slice(), regs)?;
    let no_names: Vec<Vec<char>> = Vec::new();
    proof {
        assert(names_of(no_names@) =~= Seq::<Seq<char>>::empty());
    }
    let a = parse_angle_list(&params, no_names.as_slice(), s)?;
    apply_resolved(c, name.as_slice(), a.as_slice(), q.as_slice(), defs, budget, 0, s)
}

/// Parse `measure source -> target` and append the measurements.
fn apply_measure(
    c: &mut Circuit,
    s: &[char],
    regs: &Vec<(Vec<char>, Reg)>,
    cregs: &Vec<(Vec<char>, Reg)>,
) -> (r: Result<(), Vec<char>>)
    requires
        regs_bounded(regs_of(regs@), MAX_QUBITS as nat),
        regs_bounded(regs_of(cregs@), MAX_QUBITS as nat),
    ensures
        match r {
            Ok(()) => measure_spec(old(c)@, s@, regs_of(regs@), regs_of(cregs@)) == Ok::<CircuitV, Seq<char>>(final(c)@),
            Err(m) => measure_spec(old(c)@, s@, regs_of(regs@), regs_of(cregs@)) == Err::<CircuitV, Seq<char>>(m@),
        },
{
    proof {
        reveal(measure_spec);
    }
    let rest = match strip_prefix_chars(s, "measure") {
        Some(r) => r,
        None => return Err(cat3("malformed measurement `", s, "`")),
    };
    let (source, dest) = match split_once_chars(rest.as_slice(), '-', '>') {
        Some(p) => p,
        None => return Err(cat3("measurement needs `-> target`: `", s, "`")),
    };
    let dt = trim_vec(dest.as_slice());
    if dt.len() == 0 {
        return Err(cat3("measurement needs a classical target: `", s, "`"));
    }
    let qs = resolve_qubits(trim_vec(source.as_slice()).as_slice(), regs, s)?;
    let bs = resolve_qubits(dt.as_slice(), cregs, s)?;
    if qs.len() != bs.len() {
        let mut m = chars_of("cannot measure ");
        push_decimal(&mut m, qs.len() as u64);
        push_all(&mut m, chars_of(" qubit(s) onto ").as_slice());
        push_decimal(&mut m, bs.len() as u64);
        push_all(&mut m, chars_of(" classical bit(s) in `").as_slice());
        push_all(&mut m, s);
        push_all(&mut m, chars_of("`").as_slice());
        return Err(m);
    }
    measure_all(c, qs.as_slice(), bs.as_slice());
    Ok(())
}

/// Measure each of `qs` into the matching bit of `bs`.
fn measure_all(c: &mut Circuit, qs: &[usize], bs: &[usize])
    requires
        qs@.len() == bs@.len(),
    ensures
        final(c)@ == sp_measure_into(old(c)@, qs@, bs@),
{
    let ghost c0 = c@;
    let mut i: usize = 0;
    proof {
        assert(qs@.take(0) =~= Seq::<usize>::empty());
    }
    while i < qs.len()
        invariant
            i <= qs@.len(),
            qs@.len() == bs@.len(),
            c@ == sp_measure_into(c0, qs@.take(i as int), bs@.take(i as int)),
        decreases qs@.len() - i,
    {
        c.measure_into(qs[i], bs[i]);
        proof {
            assert(qs@.take(i + 1).drop_last() == qs@.take(i as int));
            assert(bs@.take(i + 1).drop_last() == bs@.take(i as int));
        }
        i = i + 1;
    }
    proof {
        assert(qs@.take(qs@.len() as int) == qs@);
        assert(bs@.take(bs@.len() as int) == bs@);
    }
}

/// Parse `reset q[i]` or `reset q` and append the resets.
fn apply_reset(c: &mut Circuit, s: &[char], regs: &Vec<(Vec<char>, Reg)>) -> (r: Result<(), Vec<char>>)
    requires
        regs_bounded(regs_of(regs@), MAX_QUBITS as nat),
    ensures
        match r {
            Ok(()) => reset_spec(old(c)@, s@, regs_of(regs@)) == Ok::<CircuitV, Seq<char>>(final(c)@),
            Err(m) => reset_spec(old(c)@, s@, regs_of(regs@)) == Err::<CircuitV, Seq<char>>(m@),
        },
{
    proof {
        reveal(reset_spec);
    }
    let rest = match strip_prefix_chars(s, "reset") {
        Some(r) => r,
        None => return Err(cat3("malformed reset `", s, "`")),
    };
    let qs = resolve_qubits(trim_vec(rest.as_slice()).as_slice(), regs, s)?;
    let ghost c0 = c@;
    let mut i: usize = 0;
    proof {
        assert(qs@.take(0) =~= Seq::<usize>::empty());
    }
    while i < qs.len()
        invariant
            i <= qs@.len(),
            c@ == sp_reset_each(c0, qs@.take(i as int)),
        decreases qs@.len() - i,
    {
        c.reset(qs[i]);
        proof {
            assert(qs@.take(i + 1).drop_last() == qs@.take(i as int));
        }
        i = i + 1;
    }
    proof {
        assert(qs@.take(qs@.len() as int) == qs@);
    }
    Ok(())
}

/// `2^n` for a register size.
fn pow_two(n: usize) -> (r: u64)
    requires
        n <= MAX_QUBITS,
    ensures
        r == two_to(n as nat),
{
    proof {
        lemma_two_to_thirty();
    }
    let mut p: u64 = 1;
    let mut i: usize = 0;
    while i < n
        invariant
            i <= n <= MAX_QUBITS,
            p == two_to(i as nat),
            two_to(30) == 0x4000_0000,
        decreases n - i,
    {
        proof {
            lemma_two_to_mono((i + 1) as nat, 30);
        }
        p = p * 2;
        i = i + 1;
    }
    p
}

/// `v` placed `k` bits up, for a value `v` of an `m`-bit register.
fn shift_up(v: u64, k: usize, m: usize) -> (r: u64)
    requires
        v < two_to(m as nat),
        m + k <= MAX_QUBITS,
    ensures
        r == shifted(v as nat, k as nat),
{
    proof {
        lemma_two_to_thirty();
    }
    let mut x: u64 = v;
    let mut i: usize = 0;
    while i < k
        invariant
            i <= k,
            m + k <= MAX_QUBITS,
            v < two_to(m as nat),
            x == shifted(v as nat, i as nat),
            two_to(30) == 0x4000_0000,
        decreases k - i,
    {
        proof {
            lemma_shifted_below(v as nat, m as nat, (i + 1) as nat);
            lemma_two_to_mono((m + i + 1) as nat, 30);
        }
        x = x * 2;
        i = i + 1;
    }
    x
}

/// `` `if` needs `(c==value)`: `s` ``
fn needs_condition(s: &[char]) -> (r: Vec<char>)
    ensures
        r@ == about("`if` needs `(c==value)`: `"@, s@),
{
    cat3("`if` needs `(c==value)`: `", s, "`")
}

/// Parse `if (c==value) gate` and append the guarded gate.
#[verifier::spinoff_prover]
#[verifier::rlimit(40)]
fn apply_if(
    c: &mut Circuit,
    s: &[char],
    regs: &Vec<(Vec<char>, Reg)>,
    cregs: &Vec<(Vec<char>, Reg)>,
    defs: &Vec<(Vec<char>, GateDef)>,
    budget: &mut usize,
) -> (r: Result<(), Vec<char>>)
    requires
        regs_bounded(regs_of(regs@), MAX_QUBITS as nat),
        regs_bounded(regs_of(cregs@), MAX_QUBITS as nat),
    ensures
        match r {
            Ok(()) => if_spec(old(c)@, s@, regs_of(regs@), regs_of(cregs@), defs_of(defs@), *old(budget) as nat)
                == Ok::<(CircuitV, nat), Seq<char>>((final(c)@, *final(budget) as nat)),
            Err(m) => if_spec(old(c)@, s@, regs_of(regs@), regs_of(cregs@), defs_of(defs@), *old(budget) as nat)
                == Err::<(CircuitV, nat), Seq<char>>(m@),
        },
{
    proof {
        reveal(if_spec);
    }
    let r0 = match strip_prefix_chars(s, "if") {
        Some(r) => r,
        None => return Err(needs_condition(s)),
    };
    let r = trim_vec(r0.as_slice());
    if r.len() == 0 || r[0] != '(' {
        return Err(needs_condition(s));
    }
    let close = match find(r.as_slice(), ')') {
        Some(x) => x,
        None => return Err(needs_condition(s)),
    };
    let body_raw = copy_range(r.as_slice(), close + 1, r.len());
    let body = trim_vec(body_raw.as_slice());
    proof {
        assert(body_raw@ == r@.skip(close + 1));
    }
    let cond = copy_range(r.as_slice(), 1, close);
    let (lhs, rhs) = match split_once_chars(cond.as_slice(), '=', '=') {
        Some(p) => p,
        None => return Err(cat3("`if` must compare with `==`: `", s, "`")),
    };
    let cname = trim_vec(lhs.as_slice());
    let creg = match find_reg(cregs, cname.as_slice()) {
        Some(x) => x,
        None => {
            let mut m = chars_of("unknown classical register `");
            push_all(&mut m, cname.as_slice());
            push_all(&mut m, chars_of("` in `").as_slice());
            push_all(&mut m, s);
            push_all(&mut m, chars_of("`").as_slice());
            return Err(m);
        },
    };
    let vtext = trim_vec(rhs.as_slice());
    let v = match parse_u64(vtext.as_slice()) {
        Some(v) => v,
        None => {
            let mut m = chars_of("`if` value must be a non-negative integer, got `");
            push_all(&mut m, vtext.as_slice());
            push_all(&mut m, chars_of("` in `").as_slice());
            push_all(&mut m, s);
            push_all(&mut m, chars_of("`").as_slice());
            return Err(m);
        },
    };
    if body.len() == 0 {
        return Err(cat3("`if` has no statement to guard: `", s, "`"));
    }
    if not_gate(body.as_slice()) {
        return Err(cat3("only a gate may be conditional: `", s, "`"));
    }
    let mut block = Circuit::new(c.n_qubits());
    proof {
        assert(block@ == CircuitV { n_qubits: old(c)@.n_qubits, ops: Seq::empty() });
        lemma_gate_gates(block@, body@, regs_of(regs@), defs_of(defs@), *budget as nat);
    }
    apply_gate(&mut block, body.as_slice(), regs, defs, budget)?;
    proof {
        lemma_lookup_in(regs_of(cregs@), cname@, MAX_QUBITS as nat);
    }
    let lim = pow_two(creg.size);
    if v < lim && block.ops().len() > 0 {
        let value = shift_up(v, creg.offset, creg.size);
        c.if_classical_eq(value, block);
    }
    Ok(())
}

/// Import an OpenQASM 2.0 program given as characters.
///
/// Angles are checked for their syntax and their names, and kept as
/// expressions: their numeric values are not computed here. An angle whose
/// value is not a finite number, such as `1/0`, is accepted by this function;
/// a caller that evaluates the angles reports it then.
pub fn parse_chars(src: &[char]) -> (r: Result<Circuit, Vec<char>>)
    ensures
        match r {
            Ok(c) => qasm_spec(src@) == Ok::<CircuitV, Seq<char>>(c@),
            Err(m) => qasm_spec(src@) == Err::<CircuitV, Seq<char>>(m@),
        },
{
    let clean = strip_comments(src);
    let stmts = split_statements(clean.as_slice())?;
    let ghost sv = names_of(stmts@);
    proof {
        assert(sv == stmts@.map_values(|p: Vec<char>| p@));
    }
    let (regs, total) = collect_qregs(&stmts)?;
    if total == 0 {
        return Err(chars_of("no `qreg` declared"));
    }
    let cregs = collect_cregs(&stmts, total)?;
    let defs = collect_defs(&stmts)?;
    let mut c = Circuit::new(total);
    let mut budget: usize = MAX_EXPANDED_OPS;
    proof {
        assert(c@ == CircuitV { n_qubits: total, ops: Seq::empty() });
        assert forall|i: int| 0 <= i < regs_of(regs@).len() implies #[trigger] regs_of(regs@)[i].1.offset
            + regs_of(regs@)[i].1.size <= MAX_QUBITS by {}
        assert forall|i: int| 0 <= i < regs_of(cregs@).len() implies #[trigger] regs_of(cregs@)[i].1.offset
            + regs_of(cregs@)[i].1.size <= MAX_QUBITS by {}
    }
    let ghost rv = regs_of(regs@);
    let ghost cv = regs_of(cregs@);
    let ghost dv = defs_of(defs@);
    proof {
        assert(qasm_spec(src@) == run_from(sv, 0, rv, cv, dv, c@, budget as nat));
    }
    let mut k: usize = 0;
    while k < stmts.len()
        invariant
            k <= stmts@.len(),
            sv == names_of(stmts@),
            rv == regs_of(regs@),
            cv == regs_of(cregs@),
            dv == defs_of(defs@),
            regs_bounded(rv, MAX_QUBITS as nat),
            regs_bounded(cv, MAX_QUBITS as nat),
            qasm_spec(src@) == run_from(sv, k as int, rv, cv, dv, c@, budget as nat),
        decreases stmts@.len() - k,
    {
        let s = stmts[k].as_slice();
        proof {
            assert(sv[k as int] == s@);
        }
        if skips(s) {
        } else if keyword_is(s, "measure") {
            apply_measure(&mut c, s, &regs, &cregs)?;
        } else if keyword_is(s, "reset") {
            apply_reset(&mut c, s, &regs)?;
        } else if keyword_is(s, "opaque") {
            let kw = keyword(s);
            return Err(cat3("unsupported OpenQASM feature `", kw.as_slice(), "`"));
        } else if keyword_is(s, "if") {
            apply_if(&mut c, s, &regs, &cregs, &defs, &mut budget)?;
        } else {
            apply_gate(&mut c, s, &regs, &defs, &mut budget)?;
        }
        k = k + 1;
    }
    Ok(c)
}

/// Parse an OpenQASM 2.0 subset program into a [`Circuit`], or return a
/// [`ParseError`] naming the offending statement.
///
/// Angles are checked for their syntax and their names, and kept as
/// expressions: their numeric values are not computed here. An angle whose
/// value is not a finite number, such as `1/0`, is accepted by this function;
/// a caller that evaluates the angles reports it then.
pub fn parse(src: &str) -> (r: Result<Circuit, ParseError>)
    ensures
        match r {
            Ok(c) => qasm_spec(src@) == Ok::<CircuitV, Seq<char>>(c@),
            Err(e) => qasm_spec(src@) == Err::<CircuitV, Seq<char>>(e.message@) && e.line is None,
        },
{
    let chars = chars_of(src);
    match parse_chars(chars.as_slice()) {
        Ok(c) => Ok(c),
        Err(m) => Err(ParseError::new(string_of(m.as_slice()))),
    }
}

} // verus!
