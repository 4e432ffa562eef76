//! Angle expressions, shared by both front ends.
//!
//! An angle is an arithmetic expression over numbers, `pi` and (inside a
//! `gate` body) the declaration's formal parameters, with `+ - * / ^`,
//! parentheses, unary sign, and `sin`/`cos`/`tan`/`exp`/`ln`/`sqrt`. This
//! module holds the expression tree and its syntax; the numeric value is
//! computed where the circuit is run.
use vstd::prelude::*;
use crate::text::{is_ws, is_digit, is_alpha, is_alnum};

verus! {

/// A function an angle expression may call.
#[derive(Debug, Clone, Copy, PartialEq, Eq, Structural)]
pub enum Func {
    /// `sin`
    Sin,
    /// `cos`
    Cos,
    /// `tan`
    Tan,
    /// `exp`
    Exp,
    /// `ln`
    Ln,
    /// `sqrt`
    Sqrt,
}

/// A binary operator.
#[derive(Debug, Clone, Copy, PartialEq, Eq, Structural)]
pub enum BinOp {
    /// `+`
    Add,
    /// `-`
    Sub,
    /// `*`
    Mul,
    /// `/`
    Div,
    /// `^`, right-associative
    Pow,
}

/// An angle expression tree.
#[derive(Debug)]
pub enum Expr {
    /// A numeric literal, as written.
    Num(Vec<char>),
    /// The constant `pi`.
    Pi,
    /// A formal parameter of a `gate` declaration.
    Var(Vec<char>),
    /// Unary minus.
    Neg(Box<Expr>),
    /// A binary operation.
    Bin(BinOp, Box<Expr>, Box<Expr>),
    /// A function call.
    Call(Func, Box<Expr>),
}

/// The mathematical content of an [`Expr`].
pub enum ExprV {
    /// A numeric literal, as written.
    Num(Seq<char>),
    /// `pi`
    Pi,
    /// A formal parameter.
    Var(Seq<char>),
    /// Unary minus.
    Neg(Box<ExprV>),
    /// A binary operation.
    Bin(BinOp, Box<ExprV>, Box<ExprV>),
    /// A function call.
    Call(Func, Box<ExprV>),
}

impl View for Expr {
    type V = ExprV;

    open spec fn view(&self) -> ExprV
        decreases self,
    {
        match self {
            Expr::Num(t) => ExprV::Num(t@),
            Expr::Pi => ExprV::Pi,
            Expr::Var(t) => ExprV::Var(t@),
            Expr::Neg(e) => ExprV::Neg(Box::new((**e).view())),
            Expr::Bin(op, a, b) => ExprV::Bin(*op, Box::new((**a).view()), Box::new((**b).view())),
            Expr::Call(f, e) => ExprV::Call(*f, Box::new((**e).view())),
        }
    }
}

/// The mathematical content of an [`Angle`].
pub struct AngleV {
    /// The expression.
    pub expr: ExprV,
    /// The angle as written.
    pub text: Seq<char>,
    /// The statement it appeared in.
    pub stmt: Option<Seq<char>>,
    /// The program line it appeared on.
    pub line: Option<usize>,
}

/// The view of an optional character vector.
pub open spec fn opt_chars(v: Option<Vec<char>>) -> Option<Seq<char>> {
    match v {
        Some(t) => Some(t@),
        None => None,
    }
}

impl Expr {
    /// A copy of this expression.
    pub fn duplicate(&self) -> (r: Expr)
        ensures
            r@ == self@,
        decreases self,
    {
        match self {
            Expr::Num(t) => Expr::Num(copy_chars(t)),
            Expr::Pi => Expr::Pi,
            Expr::Var(t) => Expr::Var(copy_chars(t)),
            Expr::Neg(e) => Expr::Neg(Box::new((**e).duplicate())),
            Expr::Bin(op, a, b) => Expr::Bin(*op, Box::new((**a).duplicate()), Box::new((**b).duplicate())),
            Expr::Call(f, e) => Expr::Call(*f, Box::new((**e).duplicate())),
        }
    }
}

impl Clone for Expr {
    fn clone(&self) -> (r: Self)
        ensures
            r@ == self@,
    {
        self.duplicate()
    }
}

/// A copy of a character vector.
pub fn copy_chars(v: &Vec<char>) -> (r: Vec<char>)
    ensures
        r@ == v@,
{
    let r = crate::text::copy_range(v.as_slice(), 0, v.len());
    proof {
        assert(r@ =~= v@);
    }
    r
}

/// A copy of an optional character vector.
pub fn copy_opt_chars(v: &Option<Vec<char>>) -> (r: Option<Vec<char>>)
    ensures
        opt_chars(r) == opt_chars(*v),
{
    match v {
        Some(t) => Some(copy_chars(t)),
        None => None,
    }
}

/// An angle: its expression, with where it came from for error reports.
#[derive(Debug)]
pub struct Angle {
    /// The expression to evaluate.
    pub expr: Expr,
    /// The angle as written.
    pub text: Vec<char>,
    /// The OpenQASM statement it appeared in, if any.
    pub stmt: Option<Vec<char>>,
    /// The program line it appeared on, if any.
    pub line: Option<usize>,
}

impl View for Angle {
    type V = AngleV;

    open spec fn view(&self) -> AngleV {
        AngleV { expr: self.expr@, text: self.text@, stmt: opt_chars(self.stmt), line: self.line }
    }
}

impl Angle {
    /// A copy of this angle.
    pub fn duplicate(&self) -> (r: Angle)
        ensures
            r@ == self@,
    {
        Angle {
            expr: self.expr.duplicate(),
            text: copy_chars(&self.text),
            stmt: copy_opt_chars(&self.stmt),
            line: self.line,
        }
    }

    /// An angle given by a numeric literal `text` (such as the decimal
    /// rendering of a number).
    pub fn number(text: &[char]) -> (r: Angle)
        ensures
            r@ == (AngleV { expr: ExprV::Num(text@), text: text@, stmt: None, line: None }),
    {
        let t = crate::text::copy_range(text, 0, text.len());
        proof {
            assert(text@.subrange(0, text@.len() as int) == text@);
        }
        let e = copy_chars(&t);
        Angle { expr: Expr::Num(e), text: t, stmt: None, line: None }
    }
}


// ---------------------------------------------------------------------------
// Syntax.
//
// Grammar, over characters, with whitespace allowed between tokens:
//
//   expr  := term (('+' | '-') term)*
//   term  := unary (('*' | '/') unary)*
//   unary := ('-' | '+') unary | power
//   power := atom ('^' unary)?             right-associative, above unary
//   atom  := '(' expr ')' | number atom? | name
//   name  := 'pi' | variable | func '(' expr ')'
//
// A number directly followed by a name or `(` is an implicit multiplication,
// so `2pi` means `2*pi`. Parsing positions only ever move forward; each rule
// that continues from a position a sub-rule returned checks that it did.
// ---------------------------------------------------------------------------

/// The first position at or after `p` that is not whitespace.
pub open spec fn skip_ws(s: Seq<char>, p: int) -> int
    decreases s.len() - p,
{
    if 0 <= p < s.len() && is_ws(s[p]) {
        skip_ws(s, p + 1)
    } else {
        p
    }
}

pub proof fn lemma_skip_ws(s: Seq<char>, p: int)
    requires
        0 <= p <= s.len(),
    ensures
        p <= skip_ws(s, p) <= s.len(),
    decreases s.len() - p,
{
    if 0 <= p < s.len() && is_ws(s[p]) {
        lemma_skip_ws(s, p + 1);
    }
}

/// `c` at position `p`.
pub open spec fn at(s: Seq<char>, p: int, c: char) -> bool {
    0 <= p < s.len() && s[p] == c
}

/// Whether `c` is `e` or `E`.
pub open spec fn is_e(c: char) -> bool {
    c == 'e' || c == 'E'
}

/// Whether an exponent (a digit, or a sign and a digit) follows the `e` at `k`.
pub open spec fn exponent_follows(s: Seq<char>, k: int) -> bool {
    ||| (k + 1 < s.len() && is_digit(s[k + 1]))
    ||| (k + 2 < s.len() && (s[k + 1] == '+' || s[k + 1] == '-') && is_digit(s[k + 2]))
}

/// Whether the number that began at `q` continues through position `k`.
pub open spec fn number_char(s: Seq<char>, q: int, k: int) -> bool {
    let c = s[k];
    ||| is_digit(c)
    ||| c == '.'
    ||| (is_e(c) && exponent_follows(s, k))
    ||| ((c == '+' || c == '-') && k > q && is_e(s[k - 1]))
}

/// Where the number text beginning at `k` (started at `q`) ends.
pub open spec fn number_end(s: Seq<char>, q: int, k: int) -> int
    decreases s.len() - k,
{
    if 0 <= k < s.len() && number_char(s, q, k) {
        number_end(s, q, k + 1)
    } else {
        k
    }
}

/// Where the identifier beginning at `k` ends.
pub open spec fn ident_end(s: Seq<char>, k: int) -> int
    decreases s.len() - k,
{
    if 0 <= k < s.len() && (is_alnum(s[k]) || s[k] == '_') {
        ident_end(s, k + 1)
    } else {
        k
    }
}

/// At most one `.`, and at least one digit.
pub open spec fn valid_mantissa(m: Seq<char>) -> bool {
    &&& forall|i: int| 0 <= i < m.len() ==> is_digit(#[trigger] m[i]) || m[i] == '.'
    &&& forall|i: int, j: int| 0 <= i < j < m.len() && #[trigger] m[i] == '.' ==> #[trigger] m[j] != '.'
    &&& exists|i: int| 0 <= i < m.len() && is_digit(#[trigger] m[i])
}

/// An optional sign, then one or more digits.
pub open spec fn valid_exponent(x: Seq<char>) -> bool {
    let d = if x.len() > 0 && (x[0] == '+' || x[0] == '-') { x.drop_first() } else { x };
    d.len() > 0 && crate::text::all_digits(d)
}

/// Whether `t` reads as a decimal floating-point literal: a mantissa, then an
/// optional exponent (`e` or `E`, optional sign, digits).
pub open spec fn valid_number(t: Seq<char>) -> bool {
    match first_e(t) {
        Some(k) => valid_mantissa(t.take(k)) && valid_exponent(t.skip(k + 1)),
        None => valid_mantissa(t),
    }
}

/// The index of the first `e` or `E`.
pub open spec fn first_e(t: Seq<char>) -> Option<int> {
    if exists|k: int| 0 <= k < t.len() && is_e(t[k]) {
        Some(choose|k: int| 0 <= k < t.len() && is_e(t[k]) && forall|m: int| 0 <= m < k ==> !is_e(t[m]))
    } else {
        None
    }
}

/// `invalid angle `s``
pub open spec fn msg_invalid(s: Seq<char>) -> Seq<char> {
    "invalid angle `"@ + s + "`"@
}

/// `invalid angle `s` (detail)`
pub open spec fn msg_detail(s: Seq<char>, detail: Seq<char>) -> Seq<char> {
    msg_invalid(s) + " ("@ + detail + ")"@
}

/// The function a name calls, if it names one.
pub open spec fn func_named(t: Seq<char>) -> Option<Func> {
    if t == "sin"@ {
        Some(Func::Sin)
    } else if t == "cos"@ {
        Some(Func::Cos)
    } else if t == "tan"@ {
        Some(Func::Tan)
    } else if t == "exp"@ {
        Some(Func::Exp)
    } else if t == "ln"@ {
        Some(Func::Ln)
    } else if t == "sqrt"@ {
        Some(Func::Sqrt)
    } else {
        None
    }
}

/// A parse of some rule: the tree and the position after it, or a message.
pub type PR = Result<(ExprV, int), Seq<char>>;

/// `pow(b, e)`
pub open spec fn bin(op: BinOp, a: ExprV, b: ExprV) -> ExprV {
    ExprV::Bin(op, Box::new(a), Box::new(b))
}

/// `expr := term (('+' | '-') term)*`
pub open spec fn p_expr(s: Seq<char>, v: Seq<Seq<char>>, p: int) -> PR
    decreases s.len() - p, 6int,
{
    if 0 <= p <= s.len() {
        match p_term(s, v, p) {
            Ok((t, p1)) => if p < p1 <= s.len() { p_expr_tail(s, v, t, p1) } else { Ok((t, p1)) },
            Err(e) => Err(e),
        }
    } else {
        Err(msg_invalid(s))
    }
}

/// The `(('+' | '-') term)*` of an expression, after `acc`.
pub open spec fn p_expr_tail(s: Seq<char>, v: Seq<Seq<char>>, acc: ExprV, p: int) -> PR
    decreases s.len() - p, 7int,
{
    if 0 <= p <= s.len() {
        let q = skip_ws(s, p);
        proof { lemma_skip_ws(s, p); }
        if at(s, q, '+') || at(s, q, '-') {
            let op = if at(s, q, '+') { BinOp::Add } else { BinOp::Sub };
            match p_term(s, v, q + 1) {
                Ok((t, p2)) => if p < p2 <= s.len() {
                    p_expr_tail(s, v, bin(op, acc, t), p2)
                } else {
                    Ok((bin(op, acc, t), p2))
                },
                Err(e) => Err(e),
            }
        } else {
            Ok((acc, q))
        }
    } else {
        Err(msg_invalid(s))
    }
}

/// `term := unary (('*' | '/') unary)*`
pub open spec fn p_term(s: Seq<char>, v: Seq<Seq<char>>, p: int) -> PR
    decreases s.len() - p, 4int,
{
    if 0 <= p <= s.len() {
        match p_unary(s, v, p) {
            Ok((t, p1)) => if p < p1 <= s.len() { p_term_tail(s, v, t, p1) } else { Ok((t, p1)) },
            Err(e) => Err(e),
        }
    } else {
        Err(msg_invalid(s))
    }
}

/// The `(('*' | '/') unary)*` of a term, after `acc`.
pub open spec fn p_term_tail(s: Seq<char>, v: Seq<Seq<char>>, acc: ExprV, p: int) -> PR
    decreases s.len() - p, 5int,
{
    if 0 <= p <= s.len() {
        let q = skip_ws(s, p);
        proof { lemma_skip_ws(s, p); }
        if at(s, q, '*') || at(s, q, '/') {
            let op = if at(s, q, '*') { BinOp::Mul } else { BinOp::Div };
            match p_unary(s, v, q + 1) {
                Ok((t, p2)) => if p < p2 <= s.len() {
                    p_term_tail(s, v, bin(op, acc, t), p2)
                } else {
                    Ok((bin(op, acc, t), p2))
                },
                Err(e) => Err(e),
            }
        } else {
            Ok((acc, q))
        }
    } else {
        Err(msg_invalid(s))
    }
}

/// `unary := ('-' | '+') unary | power`
pub open spec fn p_unary(s: Seq<char>, v: Seq<Seq<char>>, p: int) -> PR
    decreases s.len() - p, 3int,
{
    if 0 <= p <= s.len() {
        let q = skip_ws(s, p);
        proof { lemma_skip_ws(s, p); }
        if at(s, q, '-') {
            match p_unary(s, v, q + 1) {
                Ok((e, p2)) => Ok((ExprV::Neg(Box::new(e)), p2)),
                Err(e) => Err(e),
            }
        } else if at(s, q, '+') {
            p_unary(s, v, q + 1)
        } else {
            p_power(s, v, q)
        }
    } else {
        Err(msg_invalid(s))
    }
}

/// `power := atom ('^' unary)?`
pub open spec fn p_power(s: Seq<char>, v: Seq<Seq<char>>, p: int) -> PR
    decreases s.len() - p, 2int,
{
    if 0 <= p <= s.len() {
        match p_atom(s, v, p) {
            Ok((b, p1)) => if p < p1 <= s.len() {
                let q = skip_ws(s, p1);
                proof { lemma_skip_ws(s, p1); }
                if at(s, q, '^') {
                    match p_unary(s, v, q + 1) {
                        Ok((e, p2)) => Ok((bin(BinOp::Pow, b, e), p2)),
                        Err(e) => Err(e),
                    }
                } else {
                    Ok((b, q))
                }
            } else {
                Ok((b, p1))
            },
            Err(e) => Err(e),
        }
    } else {
        Err(msg_invalid(s))
    }
}

/// `atom := '(' expr ')' | number atom? | name`
pub open spec fn p_atom(s: Seq<char>, v: Seq<Seq<char>>, p: int) -> PR
    decreases s.len() - p, 1int,
{
    if 0 <= p <= s.len() {
        let q = skip_ws(s, p);
        proof { lemma_skip_ws(s, p); }
        if q >= s.len() {
            Err(msg_invalid(s))
        } else if s[q] == '(' {
            match p_expr(s, v, q + 1) {
                Ok((e, p1)) => {
                    let r = skip_ws(s, p1);
                    if at(s, r, ')') {
                        Ok((e, r + 1))
                    } else {
                        Err(msg_detail(s, "missing `)`"@))
                    }
                },
                Err(e) => Err(e),
            }
        } else if is_digit(s[q]) || s[q] == '.' {
            let end = number_end(s, q, q);
            let text = s.subrange(q, end);
            if !valid_number(text) {
                Err(msg_invalid(s))
            } else {
                let r = skip_ws(s, end);
                if p < end && r < s.len() && (is_alpha(s[r]) || s[r] == '(') {
                    match p_atom(s, v, end) {
                        Ok((a, p2)) => Ok((bin(BinOp::Mul, ExprV::Num(text), a), p2)),
                        Err(e) => Err(e),
                    }
                } else {
                    Ok((ExprV::Num(text), r))
                }
            }
        } else if is_alpha(s[q]) || s[q] == '_' {
            p_name(s, v, q)
        } else {
            Err(msg_invalid(s))
        }
    } else {
        Err(msg_invalid(s))
    }
}

/// `name := 'pi' | variable | func '(' expr ')'`
pub open spec fn p_name(s: Seq<char>, v: Seq<Seq<char>>, q: int) -> PR
    decreases s.len() - q, 0int,
{
    if 0 <= q <= s.len() {
        let end = ident_end(s, q);
        let text = s.subrange(q, end);
        if text == "pi"@ {
            Ok((ExprV::Pi, end))
        } else if v.contains(text) {
            Ok((ExprV::Var(text), end))
        } else {
            match func_named(text) {
                Some(f) => {
                    let r = skip_ws(s, end);
                    if at(s, r, '(') && q <= r {
                        match p_expr(s, v, r + 1) {
                            Ok((e, p1)) => {
                                let t = skip_ws(s, p1);
                                if at(s, t, ')') {
                                    Ok((ExprV::Call(f, Box::new(e)), t + 1))
                                } else {
                                    Err(msg_detail(s, "missing `)`"@))
                                }
                            },
                            Err(e) => Err(e),
                        }
                    } else {
                        Err(msg_detail(s, "`"@ + text + "` needs `("@))
                    }
                },
                None => Err(msg_detail(s, "unknown name `"@ + text + "`"@)),
            }
        }
    } else {
        Err(msg_invalid(s))
    }
}

/// The angle expression `s`, whose names may include the variables `v`:
/// its tree, or the message naming what is wrong with it.
pub open spec fn parse_expr_spec(s: Seq<char>, v: Seq<Seq<char>>) -> Result<ExprV, Seq<char>> {
    match p_expr(s, v, 0) {
        Ok((e, p)) => {
            let q = skip_ws(s, p);
            if 0 <= q < s.len() {
                Err(msg_detail(s, "unexpected `"@ + seq![s[q]] + "`"@))
            } else {
                Ok(e)
            }
        },
        Err(m) => Err(m),
    }
}


/// The spec reading of an executable parse result.
pub open spec fn pr_of(r: Result<(Expr, usize), Vec<char>>) -> PR {
    match r {
        Ok((e, p)) => Ok((e@, p as int)),
        Err(m) => Err(m@),
    }
}

/// Skip whitespace from `p`.
pub fn skip(s: &[char], p: usize) -> (r: usize)
    requires
        p <= s@.len(),
    ensures
        r == skip_ws(s@, p as int),
        p <= r <= s@.len(),
{
    let mut q = p;
    while q < s.len() && crate::text::ws(s[q])
        invariant
            p <= q <= s@.len(),
            skip_ws(s@, p as int) == skip_ws(s@, q as int),
        decreases s@.len() - q,
    {
        q = q + 1;
    }
    q
}

/// Whether `s[q] == c`.
fn is_at(s: &[char], q: usize, c: char) -> (r: bool)
    ensures
        r == at(s@, q as int, c),
{
    q < s.len() && s[q] == c
}

/// The end of the number text begun at `q`.
fn scan_number(s: &[char], q: usize) -> (r: usize)
    requires
        q <= s@.len(),
    ensures
        r == number_end(s@, q as int, q as int),
        q <= r <= s@.len(),
{
    let mut k = q;
    while k < s.len()
        invariant
            q <= k <= s@.len(),
            number_end(s@, q as int, q as int) == number_end(s@, q as int, k as int),
        decreases s@.len() - k,
    {
        let c = s[k];
        let e_here = c == 'e' || c == 'E';
        let follows = (s.len() - k > 1 && crate::text::digit(s[k + 1])) || (s.len() - k > 2 && (
        s[k + 1] == '+' || s[k + 1] == '-') && crate::text::digit(s[k + 2]));
        let sign_after_e = (c == '+' || c == '-') && k > q && (s[k - 1] == 'e' || s[k - 1] == 'E');
        if !(crate::text::digit(c) || c == '.' || (e_here && follows) || sign_after_e) {
            return k;
        }
        k = k + 1;
    }
    k
}

/// The end of the identifier begun at `k`.
pub fn scan_ident(s: &[char], k: usize) -> (r: usize)
    requires
        k <= s@.len(),
    ensures
        r == ident_end(s@, k as int),
        k <= r <= s@.len(),
{
    let mut j = k;
    while j < s.len() && (crate::text::alnum(s[j]) || s[j] == '_')
        invariant
            k <= j <= s@.len(),
            ident_end(s@, k as int) == ident_end(s@, j as int),
        decreases s@.len() - j,
    {
        j = j + 1;
    }
    j
}

/// Whether `t` reads as a floating-point literal.
fn check_number(t: &[char]) -> (r: bool)
    ensures
        r == valid_number(t@),
{
    // Find the first `e`/`E`.
    let mut k: usize = 0;
    while k < t.len() && !(t[k] == 'e' || t[k] == 'E')
        invariant
            k <= t@.len(),
            forall|m: int| 0 <= m < k ==> !is_e(#[trigger] t@[m]),
        decreases t@.len() - k,
    {
        k = k + 1;
    }
    let ghost fe = first_e(t@);
    proof {
        if k < t@.len() {
            let w = choose|w: int| 0 <= w < t@.len() && is_e(t@[w]) && forall|m: int| 0 <= m < w ==> !is_e(t@[m]);
            if w < k {
                assert(!is_e(t@[w]));
            } else if w > k {
                assert(!is_e(t@[k as int]));
            }
            assert(fe == Some(k as int));
        } else {
            assert(fe is None);
        }
    }
    let m_ok = check_mantissa(t, k);
    if !m_ok {
        proof {
            if k == t@.len() {
                assert(t@.take(k as int) == t@);
            }
        }
        return false;
    }
    if k == t.len() {
        proof { assert(t@.take(k as int) == t@); }
        return true;
    }
    // The exponent: an optional sign, then one or more digits.
    let mut j = k + 1;
    if j < t.len() && (t[j] == '+' || t[j] == '-') {
        j = j + 1;
    }
    let ghost x = t@.skip(k + 1);
    let ghost d = if x.len() > 0 && (x[0] == '+' || x[0] == '-') { x.drop_first() } else { x };
    proof {
        assert(d == t@.subrange(j as int, t@.len() as int));
    }
    if j == t.len() {
        return false;
    }
    let mut i = j;
    while i < t.len()
        invariant
            j <= i <= t@.len(),
            d == t@.subrange(j as int, t@.len() as int),
            x == t@.skip(k + 1),
            d == (if x.len() > 0 && (x[0] == '+' || x[0] == '-') { x.drop_first() } else { x }),
            fe == first_e(t@),
            fe == Some(k as int),
            valid_mantissa(t@.take(k as int)),
            forall|m: int| j <= m < i ==> is_digit(#[trigger] t@[m]),
        decreases t@.len() - i,
    {
        if !crate::text::digit(t[i]) {
            proof {
                assert(d[i - j] == t@[i as int]);
                assert(!is_digit(d[i - j]));
                assert(!crate::text::all_digits(d));
            }
            return false;
        }
        i = i + 1;
    }
    proof {
        assert forall|m: int| 0 <= m < d.len() implies is_digit(#[trigger] d[m]) by {
            assert(d[m] == t@[j + m]);
        }
    }
    true
}

/// Whether `t[..k]` is a valid mantissa.
fn check_mantissa(t: &[char], k: usize) -> (r: bool)
    requires
        k <= t@.len(),
    ensures
        r == valid_mantissa(t@.take(k as int)),
{
    let ghost m = t@.take(k as int);
    let mut dots: usize = 0;
    let mut dot_at: usize = 0;
    let mut digits = false;
    let mut i: usize = 0;
    while i < k
        invariant
            i <= k <= t@.len(),
            m == t@.take(k as int),
            forall|a: int| 0 <= a < i ==> is_digit(#[trigger] m[a]) || m[a] == '.',
            dots <= 1,
            dots == 0 ==> forall|a: int| 0 <= a < i ==> #[trigger] m[a] != '.',
            dots == 1 ==> dot_at < i && m[dot_at as int] == '.' && forall|a: int| 0 <= a < i && a != dot_at ==> #[trigger] m[a] != '.',
            digits == exists|a: int| 0 <= a < i && is_digit(#[trigger] m[a]),
        decreases k - i,
    {
        let c = t[i];
        proof { assert(m[i as int] == c); }
        if crate::text::digit(c) {
            digits = true;
        } else if c == '.' {
            if dots == 1 {
                proof {
                    assert(m[dot_at as int] == '.' && m[i as int] == '.');
                }
                return false;
            }
            dots = 1;
            dot_at = i;
        } else {
            return false;
        }
        i = i + 1;
    }
    digits
}

/// `invalid angle `s``
fn m_invalid(s: &[char]) -> (r: Vec<char>)
    ensures
        r@ == msg_invalid(s@),
{
    let mut out = crate::text::chars_of("invalid angle `");
    crate::text::push_all(&mut out, s);
    crate::text::push_all(&mut out, crate::text::chars_of("`").as_slice());
    out
}

/// `invalid angle `s` (detail)`
fn m_detail(s: &[char], detail: &[char]) -> (r: Vec<char>)
    ensures
        r@ == msg_detail(s@, detail@),
{
    let mut out = m_invalid(s);
    crate::text::push_all(&mut out, crate::text::chars_of(" (").as_slice());
    crate::text::push_all(&mut out, detail);
    crate::text::push_all(&mut out, crate::text::chars_of(")").as_slice());
    proof {
        assert(out@ =~= msg_detail(s@, detail@));
    }
    out
}

/// The function `t` names, if any.
fn func_of(t: &[char]) -> (r: Option<Func>)
    ensures
        r == func_named(t@),
{
    if crate::text::same(t, crate::text::chars_of("sin").as_slice()) {
        Some(Func::Sin)
    } else if crate::text::same(t, crate::text::chars_of("cos").as_slice()) {
        Some(Func::Cos)
    } else if crate::text::same(t, crate::text::chars_of("tan").as_slice()) {
        Some(Func::Tan)
    } else if crate::text::same(t, crate::text::chars_of("exp").as_slice()) {
        Some(Func::Exp)
    } else if crate::text::same(t, crate::text::chars_of("ln").as_slice()) {
        Some(Func::Ln)
    } else if crate::text::same(t, crate::text::chars_of("sqrt").as_slice()) {
        Some(Func::Sqrt)
    } else {
        None
    }
}

/// Whether `names` holds `t`.
pub fn has_name(names: &[Vec<char>], t: &[char]) -> (r: bool)
    ensures
        r == names@.map_values(|n: Vec<char>| n@).contains(t@),
{
    let ghost nv = names@.map_values(|n: Vec<char>| n@);
    let mut k: usize = 0;
    while k < names.len()
        invariant
            k <= names@.len(),
            nv == names@.map_values(|n: Vec<char>| n@),
            forall|i: int| 0 <= i < k ==> #[trigger] nv[i] != t@,
        decreases names@.len() - k,
    {
        if crate::text::same(names[k].as_slice(), t) {
            proof { assert(nv[k as int] == t@); }
            return true;
        }
        k = k + 1;
    }
    false
}

/// `expr`
fn e_expr(s: &[char], v: &[Vec<char>], p: usize) -> (r: Result<(Expr, usize), Vec<char>>)
    requires
        p <= s@.len(),
    ensures
        pr_of(r) == p_expr(s@, v@.map_values(|n: Vec<char>| n@), p as int),
    decreases s@.len() - p, 6int,
{
    match e_term(s, v, p) {
        Ok((t, p1)) => if p < p1 && p1 <= s.len() { e_expr_tail(s, v, t, p1) } else { Ok((t, p1)) },
        Err(e) => Err(e),
    }
}

/// `(('+' | '-') term)*`
fn e_expr_tail(s: &[char], v: &[Vec<char>], acc: Expr, p: usize) -> (r: Result<(Expr, usize), Vec<char>>)
    requires
        p <= s@.len(),
    ensures
        pr_of(r) == p_expr_tail(s@, v@.map_values(|n: Vec<char>| n@), acc@, p as int),
    decreases s@.len() - p, 7int,
{
    let q = skip(s, p);
    if is_at(s, q, '+') || is_at(s, q, '-') {
        assert(q < s.len());
        let op = if is_at(s, q, '+') { BinOp::Add } else { BinOp::Sub };
        match e_term(s, v, q + 1) {
            Ok((t, p2)) => {
                let e = Expr::Bin(op, Box::new(acc), Box::new(t));
                if p < p2 && p2 <= s.len() { e_expr_tail(s, v, e, p2) } else { Ok((e, p2)) }
            },
            Err(e) => Err(e),
        }
    } else {
        Ok((acc, q))
    }
}

/// `term`
fn e_term(s: &[char], v: &[Vec<char>], p: usize) -> (r: Result<(Expr, usize), Vec<char>>)
    requires
        p <= s@.len(),
    ensures
        pr_of(r) == p_term(s@, v@.map_values(|n: Vec<char>| n@), p as int),
    decreases s@.len() - p, 4int,
{
    match e_unary(s, v, p) {
        Ok((t, p1)) => if p < p1 && p1 <= s.len() { e_term_tail(s, v, t, p1) } else { Ok((t, p1)) },
        Err(e) => Err(e),
    }
}

/// `(('*' | '/') unary)*`
fn e_term_tail(s: &[char], v: &[Vec<char>], acc: Expr, p: usize) -> (r: Result<(Expr, usize), Vec<char>>)
    requires
        p <= s@.len(),
    ensures
        pr_of(r) == p_term_tail(s@, v@.map_values(|n: Vec<char>| n@), acc@, p as int),
    decreases s@.len() - p, 5int,
{
    let q = skip(s, p);
    if is_at(s, q, '*') || is_at(s, q, '/') {
        assert(q < s.len());
        let op = if is_at(s, q, '*') { BinOp::Mul } else { BinOp::Div };
        match e_unary(s, v, q + 1) {
            Ok((t, p2)) => {
                let e = Expr::Bin(op, Box::new(acc), Box::new(t));
                if p < p2 && p2 <= s.len() { e_term_tail(s, v, e, p2) } else { Ok((e, p2)) }
            },
            Err(e) => Err(e),
        }
    } else {
        Ok((acc, q))
    }
}

/// `unary`
fn e_unary(s: &[char], v: &[Vec<char>], p: usize) -> (r: Result<(Expr, usize), Vec<char>>)
    requires
        p <= s@.len(),
    ensures
        pr_of(r) == p_unary(s@, v@.map_values(|n: Vec<char>| n@), p as int),
    decreases s@.len() - p, 3int,
{
    let q = skip(s, p);
    if is_at(s, q, '-') {
        assert(q < s.len());
        match e_unary(s, v, q + 1) {
            Ok((e, p2)) => Ok((Expr::Neg(Box::new(e)), p2)),
            Err(e) => Err(e),
        }
    } else if is_at(s, q, '+') {
        assert(q < s.len());
        e_unary(s, v, q + 1)
    } else {
        e_power(s, v, q)
    }
}

/// `power`
fn e_power(s: &[char], v: &[Vec<char>], p: usize) -> (r: Result<(Expr, usize), Vec<char>>)
    requires
        p <= s@.len(),
    ensures
        pr_of(r) == p_power(s@, v@.map_values(|n: Vec<char>| n@), p as int),
    decreases s@.len() - p, 2int,
{
    match e_atom(s, v, p) {
        Ok((b, p1)) => if p < p1 && p1 <= s.len() {
            let q = skip(s, p1);
            if is_at(s, q, '^') {
                assert(q < s.len());
                match e_unary(s, v, q + 1) {
                    Ok((e, p2)) => Ok((Expr::Bin(BinOp::Pow, Box::new(b), Box::new(e)), p2)),
                    Err(e) => Err(e),
                }
            } else {
                Ok((b, q))
            }
        } else {
            Ok((b, p1))
        },
        Err(e) => Err(e),
    }
}

/// `atom`
fn e_atom(s: &[char], v: &[Vec<char>], p: usize) -> (r: Result<(Expr, usize), Vec<char>>)
    requires
        p <= s@.len(),
    ensures
        pr_of(r) == p_atom(s@, v@.map_values(|n: Vec<char>| n@), p as int),
    decreases s@.len() - p, 1int,
{
    let q = skip(s, p);
    if q >= s.len() {
        Err(m_invalid(s))
    } else if s[q] == '(' {
        match e_expr(s, v, q + 1) {
            Ok((e, p1)) => {
                if p1 > s.len() {
                    return Err(m_detail(s, crate::text::chars_of("missing `)`").as_slice()));
                }
                let r = skip(s, p1);
                if is_at(s, r, ')') {
                    Ok((e, r + 1))
                } else {
                    Err(m_detail(s, crate::text::chars_of("missing `)`").as_slice()))
                }
            },
            Err(e) => Err(e),
        }
    } else if crate::text::digit(s[q]) || s[q] == '.' {
        let end = scan_number(s, q);
        let text = crate::text::copy_range(s, q, end);
        if !check_number(text.as_slice()) {
            Err(m_invalid(s))
        } else {
            let r = skip(s, end);
            if p < end && r < s.len() && (crate::text::alpha(s[r]) || s[r] == '(') {
                let num = Expr::Num(text);
                proof {
                    assert(num@ == ExprV::Num(s@.subrange(q as int, end as int)));
                }
                match e_atom(s, v, end) {
                    Ok((a, p2)) => Ok((Expr::Bin(BinOp::Mul, Box::new(num), Box::new(a)), p2)),
                    Err(e) => Err(e),
                }
            } else {
                Ok((Expr::Num(text), r))
            }
        }
    } else if crate::text::alpha(s[q]) || s[q] == '_' {
        e_name(s, v, q)
    } else {
        Err(m_invalid(s))
    }
}

/// `name`
fn e_name(s: &[char], v: &[Vec<char>], q: usize) -> (r: Result<(Expr, usize), Vec<char>>)
    requires
        q <= s@.len(),
    ensures
        pr_of(r) == p_name(s@, v@.map_values(|n: Vec<char>| n@), q as int),
    decreases s@.len() - q, 0int,
{
    let end = scan_ident(s, q);
    let text = crate::text::copy_range(s, q, end);
    if crate::text::same(text.as_slice(), crate::text::chars_of("pi").as_slice()) {
        Ok((Expr::Pi, end))
    } else if has_name(v, text.as_slice()) {
        Ok((Expr::Var(text), end))
    } else {
        match func_of(text.as_slice()) {
            Some(f) => {
                let r = skip(s, end);
                if is_at(s, r, '(') && q <= r {
                    assert(r < s.len());
                    match e_expr(s, v, r + 1) {
                        Ok((e, p1)) => {
                            if p1 > s.len() {
                                return Err(m_detail(s, crate::text::chars_of("missing `)`").as_slice()));
                            }
                            let t = skip(s, p1);
                            if is_at(s, t, ')') {
                                Ok((Expr::Call(f, Box::new(e)), t + 1))
                            } else {
                                Err(m_detail(s, crate::text::chars_of("missing `)`").as_slice()))
                            }
                        },
                        Err(e) => Err(e),
                    }
                } else {
                    let mut d = crate::text::chars_of("`");
                    crate::text::push_all(&mut d, text.as_slice());
                    crate::text::push_all(&mut d, crate::text::chars_of("` needs `(").as_slice());
                    Err(m_detail(s, d.as_slice()))
                }
            },
            None => {
                let mut d = crate::text::chars_of("unknown name `");
                crate::text::push_all(&mut d, text.as_slice());
                crate::text::push_all(&mut d, crate::text::chars_of("`").as_slice());
                Err(m_detail(s, d.as_slice()))
            },
        }
    }
}

/// Parse the angle expression `s`, whose names may include the variables
/// `vars`.
pub fn parse_expr(s: &[char], vars: &[Vec<char>]) -> (r: Result<Expr, Vec<char>>)
    ensures
        match r {
            Ok(e) => parse_expr_spec(s@, vars@.map_values(|n: Vec<char>| n@)) == Ok::<ExprV, Seq<char>>(e@),
            Err(m) => parse_expr_spec(s@, vars@.map_values(|n: Vec<char>| n@)) == Err::<ExprV, Seq<char>>(m@),
        },
{
    match e_expr(s, vars, 0) {
        Ok((e, p)) => {
            if p > s.len() {
                return Ok(e);
            }
            let q = skip(s, p);
            if q < s.len() {
                let mut d = crate::text::chars_of("unexpected `");
                d.push(s[q]);
                crate::text::push_all(&mut d, crate::text::chars_of("`").as_slice());
                proof {
                    assert(d@ =~= "unexpected `"@ + seq![s@[q as int]] + "`"@);
                }
                Err(m_detail(s, d.as_slice()))
            } else {
                Ok(e)
            }
        },
        Err(m) => Err(m),
    }
}


/// The index of the first of `names` equal to `n`.
pub open spec fn index_of_name(names: Seq<Seq<char>>, n: Seq<char>) -> Option<int> {
    if exists|i: int| 0 <= i < names.len() && names[i] == n {
        Some(choose|i: int| 0 <= i < names.len() && names[i] == n && forall|j: int| 0 <= j < i ==> names[j] != n)
    } else {
        None
    }
}

/// Where `n` occurs at `j`, it has a first occurrence.
proof fn lemma_first_occurrence(names: Seq<Seq<char>>, n: Seq<char>, j: int)
    requires
        0 <= j < names.len(),
        names[j] == n,
    ensures
        exists|i: int| 0 <= i < names.len() && names[i] == n && forall|m: int| 0 <= m < i ==> names[m] != n,
    decreases j,
{
    if exists|m: int| 0 <= m < j && names[m] == n {
        let m = choose|m: int| 0 <= m < j && names[m] == n;
        lemma_first_occurrence(names, n, m);
    } else {
        assert(forall|m: int| 0 <= m < j ==> names[m] != n);
    }
}

/// The index of a name, when there is one, is that of an occurrence.
pub proof fn lemma_index_of_name(names: Seq<Seq<char>>, n: Seq<char>)
    ensures
        index_of_name(names, n) matches Some(i) ==> 0 <= i < names.len() && names[i] == n,
{
    if exists|j: int| 0 <= j < names.len() && names[j] == n {
        let j = choose|j: int| 0 <= j < names.len() && names[j] == n;
        lemma_first_occurrence(names, n, j);
    }
}

/// Find the first of `names` equal to `n`.
pub fn find_name(names: &[Vec<char>], n: &[char]) -> (r: Option<usize>)
    ensures
        match r {
            Some(i) => index_of_name(names@.map_values(|x: Vec<char>| x@), n@) == Some(i as int) && i < names@.len(),
            None => index_of_name(names@.map_values(|x: Vec<char>| x@), n@) is None,
        },
{
    let ghost nv = names@.map_values(|x: Vec<char>| x@);
    let mut k: usize = 0;
    while k < names.len()
        invariant
            k <= names@.len(),
            nv == names@.map_values(|x: Vec<char>| x@),
            forall|j: int| 0 <= j < k ==> #[trigger] nv[j] != n@,
        decreases names@.len() - k,
    {
        if crate::text::same(names[k].as_slice(), n) {
            proof {
                assert(nv[k as int] == n@);
                let w = choose|i: int| 0 <= i < nv.len() && nv[i] == n@ && forall|j: int| 0 <= j < i ==> nv[j] != n@;
                if w < k {
                    assert(nv[w] != n@);
                } else if w > k {
                    assert(nv[k as int] != n@);
                }
            }
            return Some(k);
        }
        k = k + 1;
    }
    None
}

/// `e` with each variable named in `names` replaced by the matching value.
pub open spec fn subst(e: ExprV, names: Seq<Seq<char>>, vals: Seq<ExprV>) -> ExprV
    decreases e,
{
    match e {
        ExprV::Var(n) => match index_of_name(names, n) {
            Some(i) => if i < vals.len() { vals[i] } else { ExprV::Var(n) },
            None => ExprV::Var(n),
        },
        ExprV::Neg(a) => ExprV::Neg(Box::new(subst(*a, names, vals))),
        ExprV::Bin(op, a, b) => ExprV::Bin(op, Box::new(subst(*a, names, vals)), Box::new(subst(*b, names, vals))),
        ExprV::Call(f, a) => ExprV::Call(f, Box::new(subst(*a, names, vals))),
        _ => e,
    }
}

/// The contents of a list of angles.
pub open spec fn angles_v(a: Seq<Angle>) -> Seq<AngleV> {
    a.map_values(|x: Angle| x@)
}

/// The expressions of a list of angles.
pub open spec fn exprs_of(a: Seq<Angle>) -> Seq<ExprV> {
    a.map_values(|x: Angle| x.expr@)
}

/// Replace each variable of `e` named in `names` by the matching angle's
/// expression: how a `gate` body's angle takes the actual parameters.
pub fn substitute(e: &Expr, names: &[Vec<char>], vals: &[Angle]) -> (r: Expr)
    ensures
        r@ == subst(e@, names@.map_values(|x: Vec<char>| x@), exprs_of(vals@)),
    decreases e,
{
    match e {
        Expr::Var(n) => match find_name(names, n.as_slice()) {
            Some(i) => if i < vals.len() { vals[i].expr.duplicate() } else { Expr::Var(copy_chars(n)) },
            None => Expr::Var(copy_chars(n)),
        },
        Expr::Neg(a) => Expr::Neg(Box::new(substitute(a, names, vals))),
        Expr::Bin(op, a, b) => Expr::Bin(*op, Box::new(substitute(a, names, vals)), Box::new(substitute(b, names, vals))),
        Expr::Call(f, a) => Expr::Call(*f, Box::new(substitute(a, names, vals))),
        Expr::Num(t) => Expr::Num(copy_chars(t)),
        Expr::Pi => Expr::Pi,
    }
}

/// A constant angle, which never fails to evaluate.
pub open spec fn constant(e: ExprV, text: Seq<char>) -> AngleV {
    AngleV { expr: e, text, stmt: None, line: None }
}

/// `pi`
pub open spec fn pi_v() -> AngleV {
    constant(ExprV::Pi, "pi"@)
}

/// `pi/k`
pub open spec fn pi_over_v(k: Seq<char>) -> AngleV {
    constant(ExprV::Bin(BinOp::Div, Box::new(ExprV::Pi), Box::new(ExprV::Num(k))), "pi/"@ + k)
}

/// `0`
pub open spec fn zero_v() -> AngleV {
    constant(ExprV::Num("0"@), "0"@)
}

/// `-a`, reported as `a` if its evaluation fails.
pub open spec fn neg_v(a: AngleV) -> AngleV {
    AngleV { expr: ExprV::Neg(Box::new(a.expr)), ..a }
}

/// `pi - a`, reported as `a` if its evaluation fails.
pub open spec fn pi_minus_v(a: AngleV) -> AngleV {
    AngleV { expr: ExprV::Bin(BinOp::Sub, Box::new(ExprV::Pi), Box::new(a.expr)), ..a }
}

impl Angle {
    /// The constant `pi`.
    pub fn pi() -> (r: Angle)
        ensures
            r@ == pi_v(),
    {
        Angle { expr: Expr::Pi, text: crate::text::chars_of("pi"), stmt: None, line: None }
    }

    /// The constant `pi/k`.
    pub fn pi_over(k: &str) -> (r: Angle)
        ensures
            r@ == pi_over_v(k@),
    {
        let mut text = crate::text::chars_of("pi/");
        let kc = crate::text::chars_of(k);
        crate::text::push_all(&mut text, kc.as_slice());
        let num = Expr::Num(kc);
        let pi = Expr::Pi;
        proof {
            assert(pi@ == ExprV::Pi);
        }
        let e = Expr::Bin(BinOp::Div, Box::new(pi), Box::new(num));
        proof {
            assert(num@ == ExprV::Num(k@));
            assert(e@ == ExprV::Bin(BinOp::Div, Box::new(ExprV::Pi), Box::new(ExprV::Num(k@))));
        }
        Angle { expr: e, text, stmt: None, line: None }
    }

    /// The constant `0`.
    pub fn zero() -> (r: Angle)
        ensures
            r@ == zero_v(),
    {
        Angle { expr: Expr::Num(crate::text::chars_of("0")), text: crate::text::chars_of("0"), stmt: None, line: None }
    }

    /// `-self`.
    pub fn negated(&self) -> (r: Angle)
        ensures
            r@ == neg_v(self@),
    {
        Angle {
            expr: Expr::Neg(Box::new(self.expr.duplicate())),
            text: copy_chars(&self.text),
            stmt: copy_opt_chars(&self.stmt),
            line: self.line,
        }
    }

    /// `pi - self`.
    pub fn pi_minus(&self) -> (r: Angle)
        ensures
            r@ == pi_minus_v(self@),
    {
        let d = self.expr.duplicate();
        let pi = Expr::Pi;
        proof {
            assert(pi@ == ExprV::Pi);
        }
        let e = Expr::Bin(BinOp::Sub, Box::new(pi), Box::new(d));
        proof {
            assert(e@ == ExprV::Bin(BinOp::Sub, Box::new(ExprV::Pi), Box::new(self.expr@)));
        }
        Angle {
            expr: e,
            text: copy_chars(&self.text),
            stmt: copy_opt_chars(&self.stmt),
            line: self.line,
        }
    }
}

// ---------------------------------------------------------------------------
// What the grammar reads: operators build the trees they write.
// ---------------------------------------------------------------------------

/// A numeral: one or more decimal digits.
pub open spec fn numeral(d: Seq<char>) -> bool {
    d.len() > 0 && forall|i: int| 0 <= i < d.len() ==> is_digit(#[trigger] d[i])
}

/// The operator a character writes: `+` adds, `-` subtracts, `*`
/// multiplies, `/` divides.
pub open spec fn op_written(c: char) -> BinOp {
    if c == '+' {
        BinOp::Add
    } else if c == '-' {
        BinOp::Sub
    } else if c == '*' {
        BinOp::Mul
    } else {
        BinOp::Div
    }
}

/// The text `c1 d1 c2 d2 ...` of operators, each followed by its operand.
pub open spec fn chain_text(items: Seq<(char, Seq<char>)>) -> Seq<char>
    decreases items.len(),
{
    if items.len() == 0 {
        Seq::empty()
    } else {
        seq![items[0].0] + items[0].1 + chain_text(items.drop_first())
    }
}

/// `acc` combined with each numeral in turn, left to right, by the operator
/// written before it: `acc c1 d1 c2 d2` is `((acc c1 d1) c2 d2)`.
pub open spec fn chain_tree(acc: ExprV, items: Seq<(char, Seq<char>)>) -> ExprV
    decreases items.len(),
{
    if items.len() == 0 {
        acc
    } else {
        chain_tree(
            ExprV::Bin(op_written(items[0].0), Box::new(acc), Box::new(ExprV::Num(items[0].1))),
            items.drop_first(),
        )
    }
}

/// Every operand of `items` is a numeral, and every operator is one of
/// `ops`.
pub open spec fn chain_of(items: Seq<(char, Seq<char>)>, ops: Seq<char>) -> bool {
    forall|i: int| 0 <= i < items.len() ==> numeral(#[trigger] items[i].1) && ops.contains(items[i].0)
}

/// A character that may follow an operand: an operator or a closing
/// bracket.
pub open spec fn arith_char(c: char) -> bool {
    c == '+' || c == '-' || c == '*' || c == '/' || c == ')'
}

/// The numeral at `q..e` ends at `e`.
proof fn lemma_numeral_end(s: Seq<char>, q: int, k: int, e: int)
    requires
        0 <= q <= k <= e <= s.len(),
        q < e,
        forall|j: int| q <= j < e ==> is_digit(#[trigger] s[j]),
        e == s.len() || arith_char(s[e]) || s[e] == '^' || s[e] == 'p',
    ensures
        number_end(s, q, k) == e,
    decreases e - k,
{
    if k < e {
        assert(number_char(s, q, k));
        lemma_numeral_end(s, q, k + 1, e);
    } else if k < s.len() {
        assert(is_digit(s[k - 1]));
        assert(!number_char(s, q, k));
    }
}

/// A numeral reads as a valid number.
proof fn lemma_numeral_valid(d: Seq<char>)
    requires
        numeral(d),
    ensures
        valid_number(d),
{
    assert(!exists|k: int| 0 <= k < d.len() && is_e(d[k])) by {
        assert forall|k: int| 0 <= k < d.len() implies !is_e(d[k]) by {
            assert(is_digit(d[k]));
        }
    }
    assert(is_digit(d[0]));
}

/// A numeral followed by an operator, `^`, `)` or the end is one atom.
#[verifier::spinoff_prover]
#[verifier::rlimit(60)]
proof fn lemma_numeral_atom(s: Seq<char>, v: Seq<Seq<char>>, p: int, d: Seq<char>)
    requires
        numeral(d),
        0 <= p,
        p + d.len() <= s.len(),
        s.subrange(p, p + d.len()) == d,
        p + d.len() == s.len() || arith_char(s[p + d.len()]) || s[p + d.len()] == '^',
    ensures
        p_atom(s, v, p) == Ok::<(ExprV, int), Seq<char>>((ExprV::Num(d), p + d.len())),
{
    let e = p + d.len();
    assert forall|j: int| p <= j < e implies is_digit(#[trigger] s[j]) by {
        assert(s[j] == d[j - p]);
    }
    assert(is_digit(s[p]));
    assert(skip_ws(s, p) == p);
    lemma_numeral_end(s, p, p, e);
    lemma_numeral_valid(d);
    assert(skip_ws(s, e) == e);
}

/// A numeral followed by an operator, `)` or the end is one operand.
#[verifier::spinoff_prover]
#[verifier::rlimit(60)]
proof fn lemma_numeral_unary(s: Seq<char>, v: Seq<Seq<char>>, p: int, d: Seq<char>)
    requires
        numeral(d),
        0 <= p,
        p + d.len() <= s.len(),
        s.subrange(p, p + d.len()) == d,
        p + d.len() == s.len() || arith_char(s[p + d.len()]),
    ensures
        p_unary(s, v, p) == Ok::<(ExprV, int), Seq<char>>((ExprV::Num(d), p + d.len())),
{
    let e = p + d.len();
    assert(is_digit(s[p])) by {
        assert(s[p] == d[0]);
    }
    assert(skip_ws(s, p) == p);
    lemma_numeral_atom(s, v, p, d);
    assert(skip_ws(s, e) == e);
    assert(p_power(s, v, p) == Ok::<(ExprV, int), Seq<char>>((ExprV::Num(d), e)));
}

/// A numeral followed by `+`, `-`, `)` or the end is one term.
#[verifier::spinoff_prover]
#[verifier::rlimit(60)]
proof fn lemma_numeral_term(s: Seq<char>, v: Seq<Seq<char>>, p: int, d: Seq<char>)
    requires
        numeral(d),
        0 <= p,
        p + d.len() <= s.len(),
        s.subrange(p, p + d.len()) == d,
        p + d.len() == s.len() || s[p + d.len()] == '+' || s[p + d.len()] == '-' || s[p + d.len()] == ')',
    ensures
        p_term(s, v, p) == Ok::<(ExprV, int), Seq<char>>((ExprV::Num(d), p + d.len())),
{
    lemma_numeral_unary(s, v, p, d);
    let e = p + d.len();
    assert(skip_ws(s, e) == e);
}

/// The pieces of a chain's text: its first operator, its first operand, then
/// the rest.
#[verifier::spinoff_prover]
#[verifier::rlimit(60)]
proof fn lemma_chain_first(s: Seq<char>, p: int, items: Seq<(char, Seq<char>)>)
    requires
        items.len() > 0,
        0 <= p <= s.len(),
        s.subrange(p, s.len() as int) == chain_text(items),
    ensures
        ({
            let e = p + 1 + items[0].1.len();
            &&& e <= s.len()
            &&& s[p] == items[0].0
            &&& s.subrange(p + 1, e) == items[0].1
            &&& s.subrange(e, s.len() as int) == chain_text(items.drop_first())
            &&& (items.len() > 1 ==> e < s.len() && s[e] == items[1].0)
        }),
{
    let t = chain_text(items);
    let rest = chain_text(items.drop_first());
    let d = items[0].1;
    let e = p + 1 + d.len();
    assert(t == seq![items[0].0] + d + rest);
    assert(s[p] == t[0]);
    assert(s.subrange(p + 1, e) =~= d) by {
        assert forall|j: int| 0 <= j < d.len() implies s.subrange(p + 1, e)[j] == d[j] by {
            assert(s[p + 1 + j] == t[1 + j]);
        }
    }
    assert(s.subrange(e, s.len() as int) =~= rest) by {
        assert forall|j: int| 0 <= j < rest.len() implies s.subrange(e, s.len() as int)[j] == rest[j] by {
            assert(s[e + j] == t[1 + d.len() + j]);
        }
    }
    if items.len() > 1 {
        let r2 = items.drop_first();
        assert(rest == seq![r2[0].0] + r2[0].1 + chain_text(r2.drop_first()));
        assert(s[e] == rest[0]);
    }
}

/// The `+` and `-` of a sum after `acc` each combine the next numeral with
/// what came before.
#[verifier::spinoff_prover]
#[verifier::rlimit(60)]
proof fn lemma_sum_tail(s: Seq<char>, v: Seq<Seq<char>>, acc: ExprV, p: int, items: Seq<(char, Seq<char>)>)
    requires
        0 <= p <= s.len(),
        s.subrange(p, s.len() as int) == chain_text(items),
        chain_of(items, seq!['+', '-']),
    ensures
        p_expr_tail(s, v, acc, p) == Ok::<(ExprV, int), Seq<char>>((chain_tree(acc, items), s.len() as int)),
    decreases items.len(),
{
    if items.len() == 0 {
        assert(p == s.len());
        assert(skip_ws(s, p) == p);
    } else {
        lemma_chain_first(s, p, items);
        let c = items[0].0;
        let d = items[0].1;
        let e = p + 1 + d.len();
        assert(numeral(d) && seq!['+', '-'].contains(c));
        assert(c == '+' || c == '-');
        assert(skip_ws(s, p) == p);
        let rest = items.drop_first();
        if rest.len() > 0 {
            assert(numeral(rest[0].1) && seq!['+', '-'].contains(rest[0].0));
        }
        lemma_numeral_term(s, v, p + 1, d);
        assert forall|i: int| 0 <= i < rest.len() implies numeral(#[trigger] rest[i].1) && seq!['+', '-'].contains(
            rest[i].0,
        ) by {
            assert(rest[i] == items[i + 1]);
        }
        let next = ExprV::Bin(op_written(c), Box::new(acc), Box::new(ExprV::Num(d)));
        lemma_sum_tail(s, v, next, e, rest);
        assert(bin(op_written(c), acc, ExprV::Num(d)) == next);
    }
}

/// The `*` and `/` of a product after `acc` each combine the next numeral
/// with what came before.
#[verifier::spinoff_prover]
#[verifier::rlimit(60)]
proof fn lemma_product_tail(
    s: Seq<char>,
    v: Seq<Seq<char>>,
    acc: ExprV,
    p: int,
    items: Seq<(char, Seq<char>)>,
)
    requires
        0 <= p <= s.len(),
        s.subrange(p, s.len() as int) == chain_text(items),
        chain_of(items, seq!['*', '/']),
    ensures
        p_term_tail(s, v, acc, p) == Ok::<(ExprV, int), Seq<char>>((chain_tree(acc, items), s.len() as int)),
    decreases items.len(),
{
    if items.len() == 0 {
        assert(p == s.len());
        assert(skip_ws(s, p) == p);
    } else {
        lemma_chain_first(s, p, items);
        let c = items[0].0;
        let d = items[0].1;
        let e = p + 1 + d.len();
        assert(numeral(d) && seq!['*', '/'].contains(c));
        assert(c == '*' || c == '/');
        assert(skip_ws(s, p) == p);
        let rest = items.drop_first();
        if rest.len() > 0 {
            assert(numeral(rest[0].1) && seq!['*', '/'].contains(rest[0].0));
        }
        lemma_numeral_unary(s, v, p + 1, d);
        assert forall|i: int| 0 <= i < rest.len() implies numeral(#[trigger] rest[i].1) && seq!['*', '/'].contains(
            rest[i].0,
        ) by {
            assert(rest[i] == items[i + 1]);
        }
        let next = ExprV::Bin(op_written(c), Box::new(acc), Box::new(ExprV::Num(d)));
        lemma_product_tail(s, v, next, e, rest);
        assert(bin(op_written(c), acc, ExprV::Num(d)) == next);
    }
}

/// A sum of numerals `d0 c1 d1 c2 d2 ...`, each `ci` a `+` or a `-`, reads as
/// the left-nested tree whose every operator is the one written at its
/// place: `+` adds and `-` subtracts, grouped from the left, whatever the
/// names in scope.
#[verifier::spinoff_prover]
#[verifier::rlimit(60)]
pub proof fn lemma_sum_reads_as_written(d0: Seq<char>, items: Seq<(char, Seq<char>)>, v: Seq<Seq<char>>)
    requires
        numeral(d0),
        chain_of(items, seq!['+', '-']),
    ensures
        parse_expr_spec(d0 + chain_text(items), v) == Ok::<ExprV, Seq<char>>(chain_tree(ExprV::Num(d0), items)),
{
    let s = d0 + chain_text(items);
    let e0 = d0.len() as int;
    assert(s.subrange(0, e0) =~= d0);
    assert(s.subrange(e0, s.len() as int) =~= chain_text(items));
    if items.len() > 0 {
        lemma_chain_first(s, e0, items);
        assert(numeral(items[0].1) && seq!['+', '-'].contains(items[0].0));
    }
    lemma_numeral_term(s, v, 0, d0);
    lemma_sum_tail(s, v, ExprV::Num(d0), e0, items);
    assert(skip_ws(s, s.len() as int) == s.len());
}

/// A product of numerals `d0 c1 d1 c2 d2 ...`, each `ci` a `*` or a `/`,
/// reads as the left-nested tree whose every operator is the one written at
/// its place: `*` multiplies and `/` divides, grouped from the left.
#[verifier::spinoff_prover]
#[verifier::rlimit(60)]
pub proof fn lemma_product_reads_as_written(d0: Seq<char>, items: Seq<(char, Seq<char>)>, v: Seq<Seq<char>>)
    requires
        numeral(d0),
        chain_of(items, seq!['*', '/']),
    ensures
        parse_expr_spec(d0 + chain_text(items), v) == Ok::<ExprV, Seq<char>>(chain_tree(ExprV::Num(d0), items)),
{
    let s = d0 + chain_text(items);
    let e0 = d0.len() as int;
    assert(s.subrange(0, e0) =~= d0);
    assert(s.subrange(e0, s.len() as int) =~= chain_text(items));
    if items.len() > 0 {
        lemma_chain_first(s, e0, items);
        assert(numeral(items[0].1) && seq!['*', '/'].contains(items[0].0));
    }
    lemma_numeral_unary(s, v, 0, d0);
    lemma_product_tail(s, v, ExprV::Num(d0), e0, items);
    assert(skip_ws(s, e0) == e0);
    assert(skip_ws(s, s.len() as int) == s.len());
    assert(p_term(s, v, 0) == Ok::<(ExprV, int), Seq<char>>((chain_tree(ExprV::Num(d0), items), s.len() as int)));
}

/// An operand that runs to the end of the text is the whole expression.
proof fn lemma_whole_unary(s: Seq<char>, v: Seq<Seq<char>>, e: ExprV)
    requires
        s.len() > 0,
        p_unary(s, v, 0) == Ok::<(ExprV, int), Seq<char>>((e, s.len() as int)),
    ensures
        parse_expr_spec(s, v) == Ok::<ExprV, Seq<char>>(e),
{
    assert(skip_ws(s, s.len() as int) == s.len());
    assert(p_term(s, v, 0) == Ok::<(ExprV, int), Seq<char>>((e, s.len() as int)));
    assert(p_expr(s, v, 0) == Ok::<(ExprV, int), Seq<char>>((e, s.len() as int)));
}

/// An atom that runs to the end of a text starting with no space or sign
/// is the whole expression.
proof fn lemma_whole_atom(s: Seq<char>, v: Seq<Seq<char>>, e: ExprV)
    requires
        s.len() > 0,
        !is_ws(s[0]),
        s[0] != '-',
        s[0] != '+',
        p_atom(s, v, 0) == Ok::<(ExprV, int), Seq<char>>((e, s.len() as int)),
    ensures
        parse_expr_spec(s, v) == Ok::<ExprV, Seq<char>>(e),
{
    assert(skip_ws(s, 0) == 0);
    assert(skip_ws(s, s.len() as int) == s.len());
    assert(p_power(s, v, 0) == Ok::<(ExprV, int), Seq<char>>((e, s.len() as int)));
    lemma_whole_unary(s, v, e);
}

/// A minus sign before a numeral negates it: `-d` reads as `Neg(d)`, and a
/// plus sign before it changes nothing.
#[verifier::spinoff_prover]
#[verifier::rlimit(60)]
pub proof fn lemma_sign_reads_as_written(d: Seq<char>, v: Seq<Seq<char>>)
    requires
        numeral(d),
    ensures
        parse_expr_spec(seq!['-'] + d, v) == Ok::<ExprV, Seq<char>>(ExprV::Neg(Box::new(ExprV::Num(d)))),
        parse_expr_spec(seq!['+'] + d, v) == Ok::<ExprV, Seq<char>>(ExprV::Num(d)),
{
    let s = seq!['-'] + d;
    assert(s.subrange(1, s.len() as int) =~= d);
    assert(skip_ws(s, 0) == 0);
    lemma_numeral_unary(s, v, 1, d);
    lemma_whole_unary(s, v, ExprV::Neg(Box::new(ExprV::Num(d))));
    let t = seq!['+'] + d;
    assert(t.subrange(1, t.len() as int) =~= d);
    assert(skip_ws(t, 0) == 0);
    lemma_numeral_unary(t, v, 1, d);
    lemma_whole_unary(t, v, ExprV::Num(d));
}

/// `^` raises, and groups from the right: `a^b` reads as `Pow(a, b)` and
/// `a^b^c` as `Pow(a, Pow(b, c))`.
#[verifier::spinoff_prover]
#[verifier::rlimit(60)]
pub proof fn lemma_power_reads_as_written(d1: Seq<char>, d2: Seq<char>, d3: Seq<char>, v: Seq<Seq<char>>)
    requires
        numeral(d1),
        numeral(d2),
        numeral(d3),
    ensures
        parse_expr_spec(d1 + seq!['^'] + d2, v) == Ok::<ExprV, Seq<char>>(
            ExprV::Bin(BinOp::Pow, Box::new(ExprV::Num(d1)), Box::new(ExprV::Num(d2))),
        ),
        parse_expr_spec(d1 + seq!['^'] + d2 + seq!['^'] + d3, v) == Ok::<ExprV, Seq<char>>(
            ExprV::Bin(
                BinOp::Pow,
                Box::new(ExprV::Num(d1)),
                Box::new(ExprV::Bin(BinOp::Pow, Box::new(ExprV::Num(d2)), Box::new(ExprV::Num(d3)))),
            ),
        ),
{
    let e1 = d1.len() as int;
    let s = d1 + seq!['^'] + d2;
    assert(s.subrange(0, e1) =~= d1);
    assert(s.subrange(e1 + 1, s.len() as int) =~= d2);
    assert(is_digit(s[0])) by { assert(s[0] == d1[0]); }
    lemma_numeral_atom(s, v, 0, d1);
    assert(skip_ws(s, e1) == e1);
    lemma_numeral_unary(s, v, e1 + 1, d2);
    let pw = ExprV::Bin(BinOp::Pow, Box::new(ExprV::Num(d1)), Box::new(ExprV::Num(d2)));
    assert(p_power(s, v, 0) == Ok::<(ExprV, int), Seq<char>>((pw, s.len() as int)));
    assert(skip_ws(s, 0) == 0);
    lemma_whole_unary(s, v, pw);

    let t = d1 + seq!['^'] + d2 + seq!['^'] + d3;
    let e2: int = e1 + 1 + d2.len();
    assert(t.subrange(0, e1) =~= d1);
    assert(t.subrange(e1 + 1, e2) =~= d2);
    assert(t.subrange(e2 + 1, t.len() as int) =~= d3);
    assert(is_digit(t[0])) by { assert(t[0] == d1[0]); }
    assert(is_digit(t[e1 + 1])) by { assert(t[e1 + 1] == d2[0]); }
    lemma_numeral_atom(t, v, 0, d1);
    lemma_numeral_atom(t, v, e1 + 1, d2);
    assert(skip_ws(t, e1) == e1);
    assert(skip_ws(t, e2) == e2);
    assert(skip_ws(t, e1 + 1) == e1 + 1);
    lemma_numeral_unary(t, v, e2 + 1, d3);
    let inner = ExprV::Bin(BinOp::Pow, Box::new(ExprV::Num(d2)), Box::new(ExprV::Num(d3)));
    assert(p_power(t, v, e1 + 1) == Ok::<(ExprV, int), Seq<char>>((inner, t.len() as int)));
    assert(p_unary(t, v, e1 + 1) == Ok::<(ExprV, int), Seq<char>>((inner, t.len() as int)));
    let outer = ExprV::Bin(BinOp::Pow, Box::new(ExprV::Num(d1)), Box::new(inner));
    assert(p_power(t, v, 0) == Ok::<(ExprV, int), Seq<char>>((outer, t.len() as int)));
    assert(skip_ws(t, 0) == 0);
    lemma_whole_unary(t, v, outer);
}

/// `pi` reads as the constant, and a numeral written directly before it
/// multiplies it: `2pi` reads as `Mul(2, Pi)`.
#[verifier::spinoff_prover]
#[verifier::rlimit(60)]
pub proof fn lemma_pi_reads_as_written(d: Seq<char>, v: Seq<Seq<char>>)
    requires
        numeral(d),
    ensures
        parse_expr_spec("pi"@, v) == Ok::<ExprV, Seq<char>>(ExprV::Pi),
        parse_expr_spec(d + "pi"@, v) == Ok::<ExprV, Seq<char>>(
            ExprV::Bin(BinOp::Mul, Box::new(ExprV::Num(d)), Box::new(ExprV::Pi)),
        ),
{
    reveal_strlit("pi");
    let p = "pi"@;
    assert(p.len() == 2 && p[0] == 'p' && p[1] == 'i');
    assert(ident_end(p, 2) == 2);
    assert(ident_end(p, 1) == 2);
    assert(ident_end(p, 0) == 2);
    assert(p.subrange(0, 2) =~= p);
    assert(p_name(p, v, 0) == Ok::<(ExprV, int), Seq<char>>((ExprV::Pi, 2)));
    assert(skip_ws(p, 0) == 0);
    assert(p_atom(p, v, 0) == Ok::<(ExprV, int), Seq<char>>((ExprV::Pi, 2)));
    lemma_whole_atom(p, v, ExprV::Pi);

    let s = d + p;
    let e = d.len() as int;
    assert(s[e] == 'p' && s[e + 1] == 'i');
    assert(s.len() == e + 2);
    assert forall|j: int| 0 <= j < e implies is_digit(#[trigger] s[j]) by {
        assert(s[j] == d[j]);
    }
    lemma_numeral_end(s, 0, 0, e);
    assert(s.subrange(0, e) =~= d);
    lemma_numeral_valid(d);
    assert(skip_ws(s, 0) == 0);
    assert(skip_ws(s, e) == e);
    assert(ident_end(s, e + 2) == e + 2);
    assert(ident_end(s, e + 1) == e + 2);
    assert(ident_end(s, e) == e + 2);
    assert(s.subrange(e, e + 2) =~= p);
    assert(p_name(s, v, e) == Ok::<(ExprV, int), Seq<char>>((ExprV::Pi, e + 2)));
    assert(p_atom(s, v, e) == Ok::<(ExprV, int), Seq<char>>((ExprV::Pi, e + 2)));
    let m = ExprV::Bin(BinOp::Mul, Box::new(ExprV::Num(d)), Box::new(ExprV::Pi));
    assert(p_atom(s, v, 0) == Ok::<(ExprV, int), Seq<char>>((m, s.len() as int)));
    lemma_whole_atom(s, v, m);
}

/// The function each name calls: `sin`, `cos`, `tan`, `exp`, `ln` and
/// `sqrt`.
pub open spec fn func_written(t: Seq<char>) -> Option<Func> {
    if t == "sin"@ {
        Some(Func::Sin)
    } else if t == "cos"@ {
        Some(Func::Cos)
    } else if t == "tan"@ {
        Some(Func::Tan)
    } else if t == "exp"@ {
        Some(Func::Exp)
    } else if t == "ln"@ {
        Some(Func::Ln)
    } else if t == "sqrt"@ {
        Some(Func::Sqrt)
    } else {
        None
    }
}

/// A function's name is letters, and is not `pi`.
proof fn lemma_func_name_letters(f: Seq<char>)
    requires
        func_written(f) is Some,
    ensures
        f.len() > 0,
        forall|j: int| 0 <= j < f.len() ==> is_alpha(#[trigger] f[j]),
        f != "pi"@,
        func_named(f) == func_written(f),
{
    reveal_strlit("sin");
    reveal_strlit("cos");
    reveal_strlit("tan");
    reveal_strlit("exp");
    reveal_strlit("ln");
    reveal_strlit("sqrt");
    reveal_strlit("pi");
    assert("pi"@.len() == 2 && "pi"@[0] == 'p' && "pi"@[1] == 'i');
    if f == "sin"@ {
        assert(f[0] == 's');
    } else if f == "cos"@ {
        assert(f[0] == 'c');
    } else if f == "tan"@ {
        assert(f[0] == 't');
    } else if f == "exp"@ {
        assert(f[0] == 'e');
    } else if f == "ln"@ {
        assert(f[0] == 'l');
    } else {
        assert(f[0] == 's');
    }
}

/// Where an identifier made of `k..e` letters ends.
proof fn lemma_ident_letters(s: Seq<char>, k: int, e: int)
    requires
        0 <= k <= e < s.len(),
        forall|j: int| k <= j < e ==> is_alpha(#[trigger] s[j]),
        !is_alnum(s[e]) && s[e] != '_',
    ensures
        ident_end(s, k) == e,
    decreases e - k,
{
    if k < e {
        assert(is_alpha(s[k]));
        lemma_ident_letters(s, k + 1, e);
    }
}

/// A function name applied to a numeral reads as a call of that function:
/// `sin(d)` is `Call(Sin, d)`, and so for each of the six, when no variable
/// of the same name hides it.
#[verifier::spinoff_prover]
#[verifier::rlimit(60)]
pub proof fn lemma_call_reads_as_written(f: Seq<char>, d: Seq<char>, v: Seq<Seq<char>>)
    requires
        func_written(f) is Some,
        numeral(d),
        !v.contains(f),
    ensures
        parse_expr_spec(f + seq!['('] + d + seq![')'], v) == Ok::<ExprV, Seq<char>>(
            ExprV::Call(func_written(f)->0, Box::new(ExprV::Num(d))),
        ),
{
    lemma_func_name_letters(f);
    let s = f + seq!['('] + d + seq![')'];
    let k = f.len() as int;
    let e: int = k + 1 + d.len();
    assert(s[k] == '(');
    assert(s[e] == ')');
    assert(s.len() == e + 1);
    assert forall|j: int| 0 <= j < k implies is_alpha(#[trigger] s[j]) by {
        assert(s[j] == f[j]);
    }
    lemma_ident_letters(s, 0, k);
    assert(s.subrange(0, k) =~= f);
    assert(s.subrange(k + 1, e) =~= d);
    assert(skip_ws(s, k) == k);
    assert(skip_ws(s, e) == e);
    lemma_numeral_term(s, v, k + 1, d);
    assert(p_expr(s, v, k + 1) == Ok::<(ExprV, int), Seq<char>>((ExprV::Num(d), e)));
    let call = ExprV::Call(func_written(f)->0, Box::new(ExprV::Num(d)));
    assert(p_name(s, v, 0) == Ok::<(ExprV, int), Seq<char>>((call, e + 1)));
    assert(is_alpha(s[0]));
    assert(skip_ws(s, 0) == 0);
    assert(p_atom(s, v, 0) == Ok::<(ExprV, int), Seq<char>>((call, s.len() as int)));
    lemma_whole_atom(s, v, call);
}

/// `*` binds tighter than `+`: `a+b*c` reads as `Add(a, Mul(b, c))`.
#[verifier::spinoff_prover]
#[verifier::rlimit(50)]
pub proof fn lemma_product_binds_tighter(d1: Seq<char>, d2: Seq<char>, d3: Seq<char>, v: Seq<Seq<char>>)
    requires
        numeral(d1),
        numeral(d2),
        numeral(d3),
    ensures
        parse_expr_spec(d1 + seq!['+'] + d2 + seq!['*'] + d3, v) == Ok::<ExprV, Seq<char>>(
            ExprV::Bin(
                BinOp::Add,
                Box::new(ExprV::Num(d1)),
                Box::new(ExprV::Bin(BinOp::Mul, Box::new(ExprV::Num(d2)), Box::new(ExprV::Num(d3)))),
            ),
        ),
{
    let n1 = ExprV::Num(d1);
    let n2 = ExprV::Num(d2);
    let n3 = ExprV::Num(d3);
    let s = d1 + seq!['+'] + d2 + seq!['*'] + d3;
    let e1 = d1.len() as int;
    let e2: int = e1 + 1 + d2.len();
    assert(s[e1] == '+' && s[e2] == '*');
    assert(s.subrange(0, e1) =~= d1);
    assert(s.subrange(e1 + 1, e2) =~= d2);
    assert(s.subrange(e2 + 1, s.len() as int) =~= d3);
    lemma_numeral_term(s, v, 0, d1);
    lemma_numeral_unary(s, v, e1 + 1, d2);
    lemma_numeral_unary(s, v, e2 + 1, d3);
    assert(skip_ws(s, e1) == e1);
    assert(skip_ws(s, e2) == e2);
    assert(skip_ws(s, s.len() as int) == s.len());
    let m = ExprV::Bin(BinOp::Mul, Box::new(n2), Box::new(n3));
    assert(p_term_tail(s, v, m, s.len() as int) == Ok::<(ExprV, int), Seq<char>>((m, s.len() as int)));
    assert(p_term_tail(s, v, n2, e2) == Ok::<(ExprV, int), Seq<char>>((m, s.len() as int)));
    assert(p_term(s, v, e1 + 1) == Ok::<(ExprV, int), Seq<char>>((m, s.len() as int)));
    let a = ExprV::Bin(BinOp::Add, Box::new(n1), Box::new(m));
    assert(p_expr_tail(s, v, a, s.len() as int) == Ok::<(ExprV, int), Seq<char>>((a, s.len() as int)));
    assert(p_expr_tail(s, v, n1, e1) == Ok::<(ExprV, int), Seq<char>>((a, s.len() as int)));
    assert(p_expr(s, v, 0) == Ok::<(ExprV, int), Seq<char>>((a, s.len() as int)));
}

/// Brackets group first: `(a+b)*c` reads as `Mul(Add(a, b), c)`.
#[verifier::spinoff_prover]
#[verifier::rlimit(50)]
pub proof fn lemma_brackets_group_first(d1: Seq<char>, d2: Seq<char>, d3: Seq<char>, v: Seq<Seq<char>>)
    requires
        numeral(d1),
        numeral(d2),
        numeral(d3),
    ensures
        parse_expr_spec(seq!['('] + d1 + seq!['+'] + d2 + seq![')', '*'] + d3, v) == Ok::<ExprV, Seq<char>>(
            ExprV::Bin(
                BinOp::Mul,
                Box::new(ExprV::Bin(BinOp::Add, Box::new(ExprV::Num(d1)), Box::new(ExprV::Num(d2)))),
                Box::new(ExprV::Num(d3)),
            ),
        ),
{
    let n1 = ExprV::Num(d1);
    let n2 = ExprV::Num(d2);
    let n3 = ExprV::Num(d3);
    let t = seq!['('] + d1 + seq!['+'] + d2 + seq![')', '*'] + d3;
    let f1: int = 1 + d1.len() as int;
    let f2: int = f1 + 1 + d2.len();
    assert(t[0] == '(' && t[f1] == '+' && t[f2] == ')' && t[f2 + 1] == '*');
    assert(t.subrange(1, f1) =~= d1);
    assert(t.subrange(f1 + 1, f2) =~= d2);
    assert(t.subrange(f2 + 2, t.len() as int) =~= d3);
    lemma_numeral_term(t, v, 1, d1);
    lemma_numeral_term(t, v, f1 + 1, d2);
    lemma_numeral_unary(t, v, f2 + 2, d3);
    assert(skip_ws(t, 0) == 0);
    assert(skip_ws(t, f1) == f1);
    assert(skip_ws(t, f2) == f2);
    assert(skip_ws(t, f2 + 1) == f2 + 1);
    assert(skip_ws(t, t.len() as int) == t.len());
    let sum = ExprV::Bin(BinOp::Add, Box::new(n1), Box::new(n2));
    assert(p_expr_tail(t, v, sum, f2) == Ok::<(ExprV, int), Seq<char>>((sum, f2)));
    assert(p_expr_tail(t, v, n1, f1) == Ok::<(ExprV, int), Seq<char>>((sum, f2)));
    assert(p_expr(t, v, 1) == Ok::<(ExprV, int), Seq<char>>((sum, f2)));
    assert(p_atom(t, v, 0) == Ok::<(ExprV, int), Seq<char>>((sum, f2 + 1)));
    assert(p_power(t, v, 0) == Ok::<(ExprV, int), Seq<char>>((sum, f2 + 1)));
    assert(p_unary(t, v, 0) == Ok::<(ExprV, int), Seq<char>>((sum, f2 + 1)));
    let prod = ExprV::Bin(BinOp::Mul, Box::new(sum), Box::new(n3));
    assert(p_term_tail(t, v, prod, t.len() as int) == Ok::<(ExprV, int), Seq<char>>((prod, t.len() as int)));
    assert(p_term_tail(t, v, sum, f2 + 1) == Ok::<(ExprV, int), Seq<char>>((prod, t.len() as int)));
    assert(p_term(t, v, 0) == Ok::<(ExprV, int), Seq<char>>((prod, t.len() as int)));
    assert(p_expr_tail(t, v, prod, t.len() as int) == Ok::<(ExprV, int), Seq<char>>((prod, t.len() as int)));
    assert(p_expr(t, v, 0) == Ok::<(ExprV, int), Seq<char>>((prod, t.len() as int)));
}

} // verus!
