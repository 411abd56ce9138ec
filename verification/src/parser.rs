//! A recursive-descent parser for arithmetic expressions over the tokens
//! of the scanner, and the printing of the trees it builds.
//!
//! ```text
//! expression -> term
//! term       -> factor ( ( "+" | "-" ) factor )*
//! factor     -> NUMBER | STRING | "(" expression ")"
//! ```

use vstd::prelude::*;

use crate::lexical::{in_class, is_digit, lemma_skip_to, skip_class, CharClass};
use crate::lines::first_eof;
use crate::text::{chars_of, concat, string_of};
use crate::tokens::{views, Literal, SpecLiteral, SpecToken, Token, TokenList};

verus! {

/// A parsed expression.
#[derive(Debug)]
pub enum Expr {
    Literal(Literal),
    Binary { left: Box<Expr>, op: Token, right: Box<Expr> },
    Grouping(Box<Expr>),
}

/// What an [`Expr`] holds, as plain values.
pub enum SpecExpr {
    Literal(SpecLiteral),
    Binary { left: Box<SpecExpr>, op: SpecToken, right: Box<SpecExpr> },
    Grouping(Box<SpecExpr>),
}

/// The plain value of an expression.
pub open spec fn expr_view(e: Expr) -> SpecExpr
    decreases e,
{
    match e {
        Expr::Literal(l) => SpecExpr::Literal(l@),
        Expr::Binary { left, op, right } => SpecExpr::Binary {
            left: Box::new(expr_view(*left)),
            op: op@,
            right: Box::new(expr_view(*right)),
        },
        Expr::Grouping(inner) => SpecExpr::Grouping(Box::new(expr_view(*inner))),
    }
}

impl View for Expr {
    type V = SpecExpr;

    open spec fn view(&self) -> SpecExpr {
        expr_view(*self)
    }
}

/// An error found while parsing: the line of the offending token and a
/// message.
#[derive(Debug)]
pub struct ParseError {
    pub line: usize,
    pub message: String,
}

/// What a [`ParseError`] holds, as plain values.
pub struct SpecParseError {
    pub line: nat,
    pub message: Seq<char>,
}

impl View for ParseError {
    type V = SpecParseError;

    open spec fn view(&self) -> SpecParseError {
        SpecParseError { line: self.line as nat, message: self.message@ }
    }
}

// ---------------------------------------------------------------------------
// The grammar
/// The kind of the token at position `p`; past the end, end of input.
pub open spec fn kind_at(toks: Seq<SpecToken>, p: nat) -> TokenList {
    if p < toks.len() {
        toks[p as int].token_type
    } else {
        TokenList::Engk
    }
}

/// Whether the token at `p` is of kind `kind`, the end of input never
/// counting as a match.
pub open spec fn check(toks: Seq<SpecToken>, p: nat, kind: TokenList) -> bool {
    kind_at(toks, p) != TokenList::Engk && kind_at(toks, p) == kind
}

/// The error reported at token `t`.
pub open spec fn error_at(t: SpecToken, message: Seq<char>) -> SpecParseError {
    SpecParseError { line: t.line, message }
}

/// A parse from some position: the expression and how many tokens it took,
/// or the error and how many tokens had been taken when it was found.
pub type Parsed = Result<(SpecExpr, nat), (SpecParseError, nat)>;

/// `r` with `n` more tokens counted as taken.
pub open spec fn shift(r: Parsed, n: nat) -> Parsed {
    match r {
        Ok((e, k)) => Ok((e, n + k)),
        Err((e, k)) => Err((e, n + k)),
    }
}

/// How many tokens are left from `p` on.
pub open spec fn left_from(toks: Seq<SpecToken>, p: nat) -> nat {
    if p < toks.len() {
        (toks.len() - p) as nat
    } else {
        0
    }
}

/// `expression -> term`
pub open spec fn parse_expression(toks: Seq<SpecToken>, p: nat) -> Parsed
    decreases left_from(toks, p), 3nat,
{
    parse_term(toks, p)
}

/// `term -> factor ( ( "+" | "-" ) factor )*`, operators grouping to the
/// left.
pub open spec fn parse_term(toks: Seq<SpecToken>, p: nat) -> Parsed
    decreases left_from(toks, p), 2nat,
{
    match parse_factor(toks, p) {
        Err(x) => Err(x),
        Ok((left, k)) => shift(parse_term_rest(toks, left, p + k), k),
    }
}

/// The operators and operands of a term that follow `left`, from `p` on.
pub open spec fn parse_term_rest(toks: Seq<SpecToken>, left: SpecExpr, p: nat) -> Parsed
    decreases left_from(toks, p), 1nat,
{
    if check(toks, p, TokenList::Plus) || check(toks, p, TokenList::Minus) {
        match parse_factor(toks, p + 1) {
            Err((e, k)) => Err((e, 1 + k)),
            Ok((right, k)) => {
                let node = SpecExpr::Binary {
                    left: Box::new(left),
                    op: toks[p as int],
                    right: Box::new(right),
                };
                shift(parse_term_rest(toks, node, p + 1 + k), 1 + k)
            },
        }
    } else {
        Ok((left, 0))
    }
}

/// `factor -> NUMBER | STRING | "(" expression ")"`
pub open spec fn parse_factor(toks: Seq<SpecToken>, p: nat) -> Parsed
    decreases left_from(toks, p), 0nat,
{
    let kind = kind_at(toks, p);
    if kind == TokenList::Number || kind == TokenList::StringLit {
        Ok((SpecExpr::Literal(toks[p as int].literal), 1))
    } else if kind == TokenList::LeftParen {
        match parse_expression(toks, p + 1) {
            Err((e, k)) => Err((e, 1 + k)),
            Ok((inner, k)) => if check(toks, p + 1 + k, TokenList::RightParen) {
                Ok((SpecExpr::Grouping(Box::new(inner)), k + 2))
            } else {
                Err((error_at(toks[(p + 1 + k) as int], "Expect ')' after expression."@), 1 + k))
            },
        }
    } else {
        Err((error_at(toks[p as int], "Expect expression."@), 0))
    }
}

/// Whether an end-of-input token stands at `p` or after it.
pub open spec fn eof_ahead(toks: Seq<SpecToken>, p: nat) -> bool {
    exists|k: int| p <= k < toks.len() && #[trigger] toks[k].token_type == TokenList::Engk
}

proof fn lemma_eof_ahead_step(toks: Seq<SpecToken>, p: nat)
    requires
        eof_ahead(toks, p),
        kind_at(toks, p) != TokenList::Engk,
    ensures
        eof_ahead(toks, p + 1),
        p < toks.len(),
{
    let k = choose|k: int| p <= k < toks.len() && #[trigger] toks[k].token_type == TokenList::Engk;
    assert(k != p);
    assert(p + 1 <= k < toks.len() && toks[k].token_type == TokenList::Engk);
}

/// Whether parsing an expression from `p` reads only tokens that are
/// there.
pub open spec fn reads_expression(toks: Seq<SpecToken>, p: nat) -> bool
    decreases left_from(toks, p), 3nat,
{
    reads_term(toks, p)
}

/// Whether parsing a term from `p` reads only tokens that are there.
pub open spec fn reads_term(toks: Seq<SpecToken>, p: nat) -> bool
    decreases left_from(toks, p), 2nat,
{
    reads_factor(toks, p) && match parse_factor(toks, p) {
        Ok((_, k)) => reads_term_rest(toks, p + k),
        Err(_) => true,
    }
}

/// Whether parsing the rest of a term from `p` reads only tokens that are
/// there.
pub open spec fn reads_term_rest(toks: Seq<SpecToken>, p: nat) -> bool
    decreases left_from(toks, p), 1nat,
{
    p < toks.len() && (is_additive_at(toks, p) ==> reads_factor(toks, p + 1) && match parse_factor(
        toks,
        p + 1,
    ) {
        Ok((_, k)) => reads_term_rest(toks, p + 1 + k),
        Err(_) => true,
    })
}

/// Whether parsing a factor from `p` reads only tokens that are there.
pub open spec fn reads_factor(toks: Seq<SpecToken>, p: nat) -> bool
    decreases left_from(toks, p), 0nat,
{
    p < toks.len() && (kind_at(toks, p) == TokenList::LeftParen ==> reads_expression(toks, p + 1)
        && match parse_expression(toks, p + 1) {
        Ok((_, k)) => p + 1 + k < toks.len(),
        Err(_) => true,
    })
}

/// Whether every position from `a` up to `b` holds a token that is not the
/// end of input.
pub open spec fn no_eof_between(toks: Seq<SpecToken>, a: int, b: int) -> bool {
    forall|j: int| a <= j < b ==> j < toks.len() && (#[trigger] toks[j]).token_type != TokenList::Engk
}

/// The number of tokens a parse took, whether it succeeded or not.
pub open spec fn taken(r: Parsed) -> nat {
    match r {
        Ok((_, k)) => k,
        Err((_, k)) => k,
    }
}

proof fn lemma_factor_within_eof(toks: Seq<SpecToken>, p: nat)
    requires
        eof_ahead(toks, p),
    ensures
        reads_factor(toks, p),
        eof_ahead(toks, p + taken(parse_factor(toks, p))),
        no_eof_between(toks, p as int, (p + taken(parse_factor(toks, p))) as int),
    decreases left_from(toks, p), 0nat,
{
    let eof_at = choose|k: int| p <= k < toks.len() && #[trigger] toks[k].token_type
        == TokenList::Engk;
    let kind = kind_at(toks, p);
    if kind == TokenList::Number || kind == TokenList::StringLit {
        lemma_eof_ahead_step(toks, p);
    } else if kind == TokenList::LeftParen {
        lemma_eof_ahead_step(toks, p);
        lemma_expression_within_eof(toks, p + 1);
        match parse_expression(toks, p + 1) {
            Ok((_, k)) => {
                let q = p + 1 + k;
                let eof_at = choose|w: int| q <= w < toks.len() && #[trigger] toks[w].token_type
                    == TokenList::Engk;
                if check(toks, q, TokenList::RightParen) {
                    lemma_eof_ahead_step(toks, q);
                }
            },
            Err(_) => {},
        }
    }
}

proof fn lemma_term_rest_within_eof(toks: Seq<SpecToken>, left: SpecExpr, p: nat)
    requires
        eof_ahead(toks, p),
    ensures
        reads_term_rest(toks, p),
        eof_ahead(toks, p + taken(parse_term_rest(toks, left, p))),
        no_eof_between(toks, p as int, (p + taken(parse_term_rest(toks, left, p))) as int),
    decreases left_from(toks, p), 1nat,
{
    let eof_at = choose|w: int| p <= w < toks.len() && #[trigger] toks[w].token_type
        == TokenList::Engk;
    if is_additive_at(toks, p) {
        lemma_eof_ahead_step(toks, p);
        lemma_factor_within_eof(toks, p + 1);
        match parse_factor(toks, p + 1) {
            Ok((right, k)) => {
                let node = SpecExpr::Binary {
                    left: Box::new(left),
                    op: toks[p as int],
                    right: Box::new(right),
                };
                lemma_term_rest_within_eof(toks, node, p + 1 + k);
            },
            Err(_) => {},
        }
    }
}

proof fn lemma_term_within_eof(toks: Seq<SpecToken>, p: nat)
    requires
        eof_ahead(toks, p),
    ensures
        reads_term(toks, p),
        eof_ahead(toks, p + taken(parse_term(toks, p))),
        no_eof_between(toks, p as int, (p + taken(parse_term(toks, p))) as int),
    decreases left_from(toks, p), 2nat,
{
    lemma_factor_within_eof(toks, p);
    match parse_factor(toks, p) {
        Ok((left, k)) => {
            lemma_term_rest_within_eof(toks, left, p + k);
        },
        Err(_) => {},
    }
}

proof fn lemma_expression_within_eof(toks: Seq<SpecToken>, p: nat)
    requires
        eof_ahead(toks, p),
    ensures
        reads_expression(toks, p),
        eof_ahead(toks, p + taken(parse_expression(toks, p))),
        no_eof_between(toks, p as int, (p + taken(parse_expression(toks, p))) as int),
    decreases left_from(toks, p), 3nat,
{
    lemma_term_within_eof(toks, p);
}

proof fn lemma_first_eof_skips(toks: Seq<SpecToken>, a: int, b: int)
    requires
        0 <= a <= b,
        no_eof_between(toks, a, b),
    ensures
        first_eof(toks, a) == first_eof(toks, b),
    decreases b - a,
{
    if a < b {
        assert(toks[a].token_type != TokenList::Engk);
        lemma_first_eof_skips(toks, a + 1, b);
    }
}

/// A parse never runs past the end of input: from a position with an
/// end-of-input token at or after it, parsing reads only tokens that are
/// there, takes none that is the end of input, and stops at or before the
/// first end-of-input token from its start on, whether it succeeds or
/// fails.
pub proof fn parse_stays_before_eof(toks: Seq<SpecToken>, p: nat)
    requires
        eof_ahead(toks, p),
    ensures
        reads_expression(toks, p),
        eof_ahead(toks, p + taken(parse_expression(toks, p))),
        no_eof_between(toks, p as int, (p + taken(parse_expression(toks, p))) as int),
        p + taken(parse_expression(toks, p)) <= first_eof(toks, p as int) < toks.len(),
{
    lemma_expression_within_eof(toks, p);
    let q = (p + taken(parse_expression(toks, p))) as int;
    lemma_first_eof_skips(toks, p as int, q);
    let w = choose|k: int| q <= k < toks.len() && #[trigger] toks[k].token_type == TokenList::Engk;
    lemma_first_eof_le(toks, q, w);
}

proof fn lemma_first_eof_le(toks: Seq<SpecToken>, i: int, w: int)
    requires
        0 <= i <= w < toks.len(),
        toks[w].token_type == TokenList::Engk,
    ensures
        i <= first_eof(toks, i) <= w,
    decreases w - i,
{
    if i < w && toks[i].token_type != TokenList::Engk {
        lemma_first_eof_le(toks, i + 1, w);
    }
}

/// Whether the token at `p` is a number or string literal.
pub open spec fn is_literal_at(toks: Seq<SpecToken>, p: nat) -> bool {
    kind_at(toks, p) == TokenList::Number || kind_at(toks, p) == TokenList::StringLit
}

/// Whether the token at `p` is `+` or `-`.
pub open spec fn is_additive_at(toks: Seq<SpecToken>, p: nat) -> bool {
    check(toks, p, TokenList::Plus) || check(toks, p, TokenList::Minus)
}

/// Whether the first `n` tokens alternate literal, operator, literal, ...,
/// ending with a literal, and no `+` or `-` follows them.
pub open spec fn is_chain(toks: Seq<SpecToken>, n: nat) -> bool {
    &&& n % 2 == 1
    &&& forall|i: nat| i < n && i % 2 == 0 ==> #[trigger] is_literal_at(toks, i)
    &&& forall|i: nat| i < n && i % 2 == 1 ==> #[trigger] is_additive_at(toks, i)
    &&& !is_additive_at(toks, n)
}

/// The first `n` tokens of a chain grouped to the left:
/// `((l0 op1 l2) op3 l4) ...`.
pub open spec fn left_fold(toks: Seq<SpecToken>, n: nat) -> SpecExpr
    decreases n,
{
    if n < 3 {
        SpecExpr::Literal(toks[0].literal)
    } else {
        SpecExpr::Binary {
            left: Box::new(left_fold(toks, (n - 2) as nat)),
            op: toks[n - 2],
            right: Box::new(SpecExpr::Literal(toks[n - 1].literal)),
        }
    }
}

proof fn lemma_rest_of_chain(toks: Seq<SpecToken>, n: nat, m: nat)
    requires
        is_chain(toks, n),
        m % 2 == 1,
        m <= n,
    ensures
        parse_term_rest(toks, left_fold(toks, m), m) == Ok::<(SpecExpr, nat), (SpecParseError, nat)>(
            (left_fold(toks, n), (n - m) as nat),
        ),
    decreases n - m,
{
    if m < n {
        assert(m + 2 <= n) by {
            assert((n - m) % 2 == 0) by (nonlinear_arith)
                requires
                    m % 2 == 1,
                    n % 2 == 1,
                    m < n,
            ;
        }
        assert(is_additive_at(toks, m));
        assert(is_literal_at(toks, m + 1));
        assert(m + 1 < toks.len());
        assert(left_fold(toks, m + 2) == SpecExpr::Binary {
            left: Box::new(left_fold(toks, m)),
            op: toks[m as int],
            right: Box::new(SpecExpr::Literal(toks[(m + 1) as int].literal)),
        });
        lemma_rest_of_chain(toks, n, m + 2);
        assert(parse_factor(toks, m + 1) == Ok::<(SpecExpr, nat), (SpecParseError, nat)>(
            (SpecExpr::Literal(toks[(m + 1) as int].literal), 1nat),
        ));
        assert(parse_term_rest(toks, left_fold(toks, m), m) == shift(
            parse_term_rest(toks, left_fold(toks, m + 2), m + 2),
            2,
        ));
    } else {
        assert(m == n);
    }
}

/// Terms group to the left: a run of literals joined by `+` and `-` parses
/// as `((l0 op1 l2) op3 l4) ...`, taking every token of the run.
pub proof fn terms_group_to_the_left(toks: Seq<SpecToken>, n: nat)
    requires
        is_chain(toks, n),
    ensures
        parse_expression(toks, 0) == Ok::<(SpecExpr, nat), (SpecParseError, nat)>(
            (left_fold(toks, n), n),
        ),
{
    assert(is_literal_at(toks, 0));
    assert(0 < toks.len());
    lemma_rest_of_chain(toks, n, 1);
}

/// Whether, from `q` on, the tokens are `ops[0] fs[0] ops[1] fs[1] ...`,
/// each `ops[i]` a `+` or `-` token and each `fs[i]` a factor as it parses
/// there, with no `+` or `-` after the last; `end` is where they end.
pub open spec fn factors_from(
    toks: Seq<SpecToken>,
    q: nat,
    ops: Seq<SpecToken>,
    fs: Seq<SpecExpr>,
    end: nat,
) -> bool
    decreases fs.len(),
{
    &&& ops.len() == fs.len()
    &&& if fs.len() == 0 {
        q == end && !is_additive_at(toks, q)
    } else {
        &&& is_additive_at(toks, q)
        &&& toks[q as int] == ops[0]
        &&& parse_factor(toks, q + 1) is Ok
        &&& parse_factor(toks, q + 1)->Ok_0.0 == fs[0]
        &&& factors_from(
            toks,
            q + 1 + parse_factor(toks, q + 1)->Ok_0.1,
            ops.drop_first(),
            fs.drop_first(),
            end,
        )
    }
}

/// `first` followed by `ops[0] fs[0] ops[1] fs[1] ...`, grouped to the
/// left: `((first ops[0] fs[0]) ops[1] fs[1]) ...`.
pub open spec fn group_left(first: SpecExpr, ops: Seq<SpecToken>, fs: Seq<SpecExpr>) -> SpecExpr
    decreases fs.len(),
{
    if fs.len() == 0 || ops.len() == 0 {
        first
    } else {
        group_left(
            SpecExpr::Binary { left: Box::new(first), op: ops[0], right: Box::new(fs[0]) },
            ops.drop_first(),
            fs.drop_first(),
        )
    }
}

proof fn lemma_factors_from(
    toks: Seq<SpecToken>,
    left: SpecExpr,
    q: nat,
    ops: Seq<SpecToken>,
    fs: Seq<SpecExpr>,
    end: nat,
)
    requires
        factors_from(toks, q, ops, fs, end),
    ensures
        q <= end,
        parse_term_rest(toks, left, q) == Ok::<(SpecExpr, nat), (SpecParseError, nat)>(
            (group_left(left, ops, fs), (end - q) as nat),
        ),
    decreases fs.len(),
{
    if fs.len() > 0 {
        let (f, k) = parse_factor(toks, q + 1)->Ok_0;
        let node = SpecExpr::Binary { left: Box::new(left), op: ops[0], right: Box::new(fs[0]) };
        lemma_factors_from(toks, node, q + 1 + k, ops.drop_first(), fs.drop_first(), end);
    }
}

/// Terms group to the left, whatever their factors are: where a factor
/// `first` parses from `p` and is followed by `+` or `-` operators and
/// factors `ops[0] fs[0] ops[1] fs[1] ...` up to `end`, an expression parses
/// from `p` as `((first ops[0] fs[0]) ops[1] fs[1]) ...`, taking every token
/// up to `end`.
pub proof fn terms_group_factors_to_the_left(
    toks: Seq<SpecToken>,
    p: nat,
    ops: Seq<SpecToken>,
    fs: Seq<SpecExpr>,
    end: nat,
)
    requires
        parse_factor(toks, p) is Ok,
        factors_from(toks, p + parse_factor(toks, p)->Ok_0.1, ops, fs, end),
    ensures
        parse_expression(toks, p) == Ok::<(SpecExpr, nat), (SpecParseError, nat)>(
            (group_left(parse_factor(toks, p)->Ok_0.0, ops, fs), (end - p) as nat),
        ),
{
    let (first, k) = parse_factor(toks, p)->Ok_0;
    lemma_factors_from(toks, first, p + k, ops, fs, end);
}

// ---------------------------------------------------------------------------
// Printing
/// `s` without its leading zeros, one digit kept at least.
pub open spec fn strip_leading_zeros(s: Seq<char>) -> Seq<char>
    decreases s.len(),
{
    if s.len() > 1 && s[0] == '0' {
        strip_leading_zeros(s.drop_first())
    } else {
        s
    }
}

/// `s` without its trailing zeros.
pub open spec fn strip_trailing_zeros(s: Seq<char>) -> Seq<char>
    decreases s.len(),
{
    if s.len() > 0 && s.last() == '0' {
        strip_trailing_zeros(s.drop_last())
    } else {
        s
    }
}

/// The shortest decimal text of the number literal `t`: no leading zeros
/// before the point, no trailing zeros after it, and no point where the
/// fraction is zero. This is the exact value of the literal as written: a
/// literal with more significant digits than a 64-bit float holds is not
/// rounded (`12345678901234567890` prints as written), and one too large for
/// such a float prints in full, not as infinity. To show numbers as floats,
/// print with `Expr::print_with` and the float texts of `Expr::number_literals`.
pub open spec fn number_text(t: Seq<char>) -> Seq<char> {
    let d = skip_class(t, 0, CharClass::Not('.'));
    let whole = strip_leading_zeros(t.take(d));
    let fraction = strip_trailing_zeros(
        if d < t.len() {
            t.skip(d + 1)
        } else {
            seq![]
        },
    );
    if fraction.len() == 0 {
        whole
    } else {
        whole + seq!['.'] + fraction
    }
}

/// The value of a decimal digit.
pub open spec fn digit_value(c: char) -> int {
    c as int - '0' as int
}

/// The value of a string of decimal digits; 0 for no digit.
pub open spec fn digits_value(s: Seq<char>) -> int
    decreases s.len(),
{
    if s.len() == 0 {
        0
    } else {
        digits_value(s.drop_last()) * 10 + digit_value(s.last())
    }
}

/// Whether every character of `s` is a decimal digit.
pub open spec fn all_digits(s: Seq<char>) -> bool {
    forall|i: int| 0 <= i < s.len() ==> is_digit(#[trigger] s[i])
}

/// Ten to the power `n`.
pub open spec fn pow10(n: nat) -> int
    decreases n,
{
    if n == 0 {
        1
    } else {
        10 * pow10((n - 1) as nat)
    }
}

/// Whether `w` is written without leading zeros: one digit, or a first
/// digit other than zero.
pub open spec fn no_leading_zero(w: Seq<char>) -> bool {
    w.len() == 1 || (w.len() > 1 && w[0] != '0')
}

proof fn lemma_leading_zero_value(s: Seq<char>)
    ensures
        digits_value(seq!['0'] + s) == digits_value(s),
    decreases s.len(),
{
    let z = seq!['0'] + s;
    if s.len() > 0 {
        lemma_leading_zero_value(s.drop_last());
        assert(z.drop_last() =~= seq!['0'] + s.drop_last());
        assert(z.last() == s.last());
        assert(digits_value(z) == digits_value(z.drop_last()) * 10 + digit_value(z.last()));
    } else {
        assert(z.drop_last() =~= Seq::<char>::empty());
        assert(z.last() == '0');
        assert(digits_value(z) == digits_value(z.drop_last()) * 10 + digit_value(z.last()));
    }
}

proof fn lemma_strip_leading(s: Seq<char>)
    requires
        s.len() > 0,
        all_digits(s),
    ensures
        digits_value(strip_leading_zeros(s)) == digits_value(s),
        all_digits(strip_leading_zeros(s)),
        no_leading_zero(strip_leading_zeros(s)),
    decreases s.len(),
{
    if s.len() > 1 && s[0] == '0' {
        let r = s.drop_first();
        assert forall|i: int| 0 <= i < r.len() implies is_digit(#[trigger] r[i]) by {
            assert(r[i] == s[i + 1]);
        }
        lemma_strip_leading(r);
        assert(s =~= seq!['0'] + r);
        lemma_leading_zero_value(r);
    }
}

proof fn lemma_strip_trailing(s: Seq<char>)
    requires
        all_digits(s),
    ensures
        strip_trailing_zeros(s).len() <= s.len(),
        digits_value(s) == digits_value(strip_trailing_zeros(s)) * pow10(
            (s.len() - strip_trailing_zeros(s).len()) as nat,
        ),
        all_digits(strip_trailing_zeros(s)),
        strip_trailing_zeros(s).len() == 0 || strip_trailing_zeros(s).last() != '0',
    decreases s.len(),
{
    if s.len() > 0 && s.last() == '0' {
        let r = s.drop_last();
        assert forall|i: int| 0 <= i < r.len() implies is_digit(#[trigger] r[i]) by {
            assert(r[i] == s[i]);
        }
        lemma_strip_trailing(r);
        let a = digits_value(strip_trailing_zeros(r));
        let n = (r.len() - strip_trailing_zeros(r).len()) as nat;
        assert(digit_value(s.last()) == 0);
        assert(pow10(n + 1) == 10 * pow10(n));
        assert(digits_value(s) == digits_value(r) * 10);
        assert((a * pow10(n)) * 10 == a * (10 * pow10(n))) by (nonlinear_arith);
        assert((s.len() - strip_trailing_zeros(s).len()) as nat == n + 1);
    }
}

/// A number literal prints as the same value, in its canonical form.
///
/// For a literal `w` of digits, or `w.f` with `f` digits too: the printed
/// text is `w2` or `w2.f2`, where `w2` is digits written without leading
/// zeros, and `f2` is digits that do not end in zero and are no longer than
/// `f` (no point where `f2` would be empty); and `w2.f2` denotes the same
/// number as `w.f`: scaled by ten to the length of `f`, both values agree.
pub proof fn number_text_keeps_the_value(w: Seq<char>, f: Seq<char>, with_point: bool)
    requires
        w.len() > 0,
        all_digits(w),
        all_digits(f),
        with_point ==> f.len() > 0,
        !with_point ==> f.len() == 0,
    ensures
        ({
            let t = if with_point {
                w + seq!['.'] + f
            } else {
                w
            };
            let w2 = strip_leading_zeros(w);
            let f2 = strip_trailing_zeros(f);
            &&& number_text(t) == if f2.len() == 0 {
                w2
            } else {
                w2 + seq!['.'] + f2
            }
            &&& all_digits(w2) && no_leading_zero(w2)
            &&& all_digits(f2) && f2.len() <= f.len()
            &&& (f2.len() == 0 || f2.last() != '0')
            &&& digits_value(w2) * pow10(f.len()) + digits_value(f2) * pow10(
                (f.len() - f2.len()) as nat,
            ) == digits_value(w) * pow10(f.len()) + digits_value(f)
        }),
{
    let t = if with_point {
        w + seq!['.'] + f
    } else {
        w
    };
    lemma_strip_leading(w);
    lemma_strip_trailing(f);
    assert forall|j: int| 0 <= j < w.len() implies in_class(CharClass::Not('.'), #[trigger] t[j]) by {
        assert(t[j] == w[j]);
        assert(is_digit(w[j]));
    }
    if with_point {
        assert(t[w.len() as int] == '.');
        lemma_skip_to(t, 0, w.len() as int, CharClass::Not('.'));
        assert(t.take(w.len() as int) =~= w);
        assert(t.skip((w.len() + 1) as int) =~= f);
    } else {
        lemma_skip_to(t, 0, w.len() as int, CharClass::Not('.'));
        assert(t.take(w.len() as int) =~= w);
        assert(strip_trailing_zeros(seq![]) == Seq::<char>::empty());
        assert(f =~= Seq::<char>::empty());
    }
}

/// The text of a parsed expression: literals as they read, binary
/// expressions as `(left op right)` and groups as `(group inner)`.
pub open spec fn print_text(e: SpecExpr) -> Seq<char>
    decreases e,
{
    match e {
        SpecExpr::Literal(l) => match l {
            SpecLiteral::Str(s) => s,
            SpecLiteral::Num(t) => number_text(t),
            SpecLiteral::Nil => "nil"@,
        },
        SpecExpr::Binary { left, op, right } => "("@ + print_text(*left) + " "@ + op.lexeme + " "@
            + print_text(*right) + ")"@,
        SpecExpr::Grouping(inner) => "(group "@ + print_text(*inner) + ")"@,
    }
}

/// The number literals of an expression, as written, left to right.
pub open spec fn number_literals(e: SpecExpr) -> Seq<Seq<char>>
    decreases e,
{
    match e {
        SpecExpr::Literal(l) => match l {
            SpecLiteral::Num(t) => seq![t],
            _ => seq![],
        },
        SpecExpr::Binary { left, op, right } => number_literals(*left) + number_literals(*right),
        SpecExpr::Grouping(inner) => number_literals(*inner),
    }
}

/// The text of a parsed expression, as [`print_text`] gives it, but with
/// the number literals, left to right, shown as `numbers` says.
pub open spec fn print_text_with(e: SpecExpr, numbers: Seq<Seq<char>>) -> Seq<char>
    decreases e,
{
    match e {
        SpecExpr::Literal(l) => match l {
            SpecLiteral::Str(s) => s,
            SpecLiteral::Num(_) => numbers[0],
            SpecLiteral::Nil => "nil"@,
        },
        SpecExpr::Binary { left, op, right } => {
            let n = number_literals(*left).len() as int;
            "("@ + print_text_with(*left, numbers.take(n)) + " "@ + op.lexeme + " "@
                + print_text_with(*right, numbers.skip(n)) + ")"@
        },
        SpecExpr::Grouping(inner) => "(group "@ + print_text_with(*inner, numbers) + ")"@,
    }
}

/// Printing with each number literal shown by its shortest decimal text is
/// printing as [`print_text`] does.
pub proof fn print_with_own_numbers(e: SpecExpr)
    ensures
        print_text_with(e, number_literals(e).map_values(|t: Seq<char>| number_text(t)))
            == print_text(e),
    decreases e,
{
    let f = |t: Seq<char>| number_text(t);
    match e {
        SpecExpr::Literal(l) => {},
        SpecExpr::Binary { left, op, right } => {
            print_with_own_numbers(*left);
            print_with_own_numbers(*right);
            let a = number_literals(*left);
            let b = number_literals(*right);
            let m = (a + b).map_values(f);
            assert(m.take(a.len() as int) =~= a.map_values(f));
            assert(m.skip(a.len() as int) =~= b.map_values(f));
        },
        SpecExpr::Grouping(inner) => {
            print_with_own_numbers(*inner);
        },
    }
}

/// The characters of each string.
pub open spec fn string_views(v: Seq<String>) -> Seq<Seq<char>> {
    v.map_values(|s: String| s@)
}

/// The shortest decimal text of the number literal `t`.
fn format_number(t: &String) -> (r: String)
    ensures
        r@ == number_text(t@),
{
    let cs = chars_of(t.as_str());
    let n = cs.len();
    let ghost s = cs@;
    let mut d: usize = 0;
    while d < n && cs[d] != '.'
        invariant
            d <= n == s.len(),
            s == cs@,
            skip_class(s, d as int, CharClass::Not('.')) == skip_class(s, 0, CharClass::Not('.')),
        decreases n - d,
    {
        d = d + 1;
    }
    let mut i: usize = 0;
    while i + 1 < d && cs[i] == '0'
        invariant
            i <= d <= n == s.len(),
            s == cs@,
            d > 0 ==> i < d,
            strip_leading_zeros(s.subrange(i as int, d as int)) == strip_leading_zeros(s.take(d as int)),
        decreases d - i,
    {
        assert(s.subrange(i as int, d as int).drop_first() =~= s.subrange(i + 1, d as int));
        i = i + 1;
    }
    assert(strip_leading_zeros(s.subrange(i as int, d as int)) == s.subrange(i as int, d as int));
    let whole = string_of(&cs, i, d);
    if d >= n {
        assert(strip_trailing_zeros(seq![]) == Seq::<char>::empty());
        return whole;
    }
    let mut j: usize = n;
    while j > d + 1 && cs[j - 1] == '0'
        invariant
            d < n == s.len(),
            s == cs@,
            d + 1 <= j <= n,
            strip_trailing_zeros(s.subrange(d + 1, j as int)) == strip_trailing_zeros(s.skip(d + 1)),
        decreases j,
    {
        assert(s.subrange(d + 1, j as int).drop_last() =~= s.subrange(d + 1, j - 1));
        j = j - 1;
    }
    assert(s.subrange(d + 1, n as int) =~= s.skip(d + 1));
    assert(strip_trailing_zeros(s.subrange(d + 1, j as int)) == s.subrange(d + 1, j as int));
    if j == d + 1 {
        return whole;
    }
    let r = concat(whole, ".");
    let fraction = string_of(&cs, d + 1, j);
    let r = concat(r, fraction.as_str());
    proof {
        reveal_strlit(".");
        assert(r@ =~= number_text(t@));
    }
    r
}

impl Expr {
    /// The number literals of the expression, as written, left to right.
    pub fn number_literals(&self) -> (v: Vec<String>)
        ensures
            string_views(v@) == number_literals(self@),
        decreases self,
    {
        match self {
            Expr::Literal(lit) => {
                let mut v: Vec<String> = Vec::new();
                match lit {
                    Literal::Num(t) => {
                        v.push(t.clone());
                        assert(string_views(v@) =~= seq![t@]);
                    },
                    _ => {
                        assert(string_views(v@) =~= Seq::<Seq<char>>::empty());
                    },
                }
                v
            },
            Expr::Binary { left, op, right } => {
                let mut a = left.number_literals();
                let mut b = right.number_literals();
                let ghost (va, vb) = (a@, b@);
                a.append(&mut b);
                assert(string_views(a@) =~= string_views(va) + string_views(vb));
                a
            },
            Expr::Grouping(inner) => inner.number_literals(),
        }
    }

    /// The text of the expression with its number literals, left to right,
    /// shown from `numbers[start..]`, and where the next unused one is.
    fn print_from(&self, numbers: &Vec<String>, start: usize) -> (r: (String, usize))
        requires
            start + number_literals(self@).len() <= numbers@.len(),
        ensures
            r.1 == start + number_literals(self@).len(),
            r.0@ == print_text_with(self@, string_views(numbers@).subrange(start as int, r.1 as int)),
        decreases self,
    {
        match self {
            Expr::Literal(lit) => match lit {
                Literal::Str(s) => (s.clone(), start),
                Literal::Num(_) => {
                    let text = numbers[start].clone();
                    assert(start < numbers.len());
                    (text, start + 1)
                },
                Literal::Nil => (String::from_str("nil"), start),
            },
            Expr::Binary { left, op, right } => {
                let (l, mid) = left.print_from(numbers, start);
                let (rt, end) = right.print_from(numbers, mid);
                let ghost s = string_views(numbers@).subrange(start as int, end as int);
                assert(s.take(mid - start) =~= string_views(numbers@).subrange(start as int, mid as int));
                assert(s.skip(mid - start) =~= string_views(numbers@).subrange(mid as int, end as int));
                let r = concat(String::from_str("("), l.as_str());
                let r = concat(r, " ");
                let r = concat(r, op.lexeme.as_str());
                let r = concat(r, " ");
                let r = concat(r, rt.as_str());
                (concat(r, ")"), end)
            },
            Expr::Grouping(expr) => {
                let (inner, end) = expr.print_from(numbers, start);
                let r = concat(String::from_str("(group "), inner.as_str());
                (concat(r, ")"), end)
            },
        }
    }

    /// The text of the expression, as [`Expr::print`] gives it, but with its
    /// number literals, left to right, shown as `numbers` says.
    pub fn print_with(&self, numbers: &Vec<String>) -> (r: String)
        requires
            numbers@.len() == number_literals(self@).len(),
        ensures
            r@ == print_text_with(self@, string_views(numbers@)),
    {
        let (r, end) = self.print_from(numbers, 0);
        assert(string_views(numbers@).subrange(0, end as int) =~= string_views(numbers@));
        r
    }

    /// The text of the expression: see [`print_text`].
    pub fn print(&self) -> (r: String)
        ensures
            r@ == print_text(self@),
        decreases self,
    {
        match self {
            Expr::Literal(lit) => match lit {
                Literal::Str(s) => s.clone(),
                Literal::Num(n) => format_number(n),
                Literal::Nil => String::from_str("nil"),
            },
            Expr::Binary { left, op, right } => {
                let r = concat(String::from_str("("), left.print().as_str());
                let r = concat(r, " ");
                let r = concat(r, op.lexeme.as_str());
                let r = concat(r, " ");
                let r = concat(r, right.print().as_str());
                concat(r, ")")
            },
            Expr::Grouping(expr) => {
                let r = concat(String::from_str("(group "), expr.print().as_str());
                concat(r, ")")
            },
        }
    }
}

/// The first of `types` that the token at `p` is of, the end of input
/// never counting as a match.
pub open spec fn first_match(toks: Seq<SpecToken>, p: nat, types: Seq<TokenList>) -> Option<TokenList>
    decreases types.len(),
{
    if types.len() == 0 {
        None
    } else if check(toks, p, types[0]) {
        Some(types[0])
    } else {
        first_match(toks, p, types.drop_first())
    }
}

/// Whether `r`, with the parser moved from `p0` to `p1`, is what `parsed`
/// says a parse from `p0` gives.
pub open spec fn parse_matches(r: Result<Expr, ParseError>, parsed: Parsed, p0: nat, p1: nat) -> bool {
    match parsed {
        Ok((e, k)) => r matches Ok(x) && x@ == e && p1 == p0 + k,
        Err((e, k)) => r matches Err(x) && x@ == e && p1 == p0 + k,
    }
}

/// A parser over a list of tokens.
pub struct Parser {
    tokens: Vec<Token>,
    current: usize,
}

impl Parser {
    /// The tokens being parsed.
    pub closed spec fn tokens(&self) -> Seq<SpecToken> {
        views(self.tokens@)
    }

    /// The position of the next token to read.
    pub closed spec fn position(&self) -> nat {
        self.current as nat
    }

    /// How many tokens are left to read.
    pub closed spec fn steps_left(&self) -> int {
        self.tokens@.len() - self.current
    }

    /// An end-of-input token lies ahead.
    pub closed spec fn wf(&self) -> bool {
        eof_ahead(self.tokens(), self.current as nat)
    }

    /// Parsing an expression from here reads only tokens that are there.
    pub closed spec fn can_parse(&self) -> bool {
        reads_expression(self.tokens(), self.current as nat)
    }

    /// A parser at the first of `tokens`.
    pub fn new(tokens: Vec<Token>) -> (p: Self)
        ensures
            p.tokens() == views(tokens@),
            p.position() == 0,
            p.wf() == eof_ahead(views(tokens@), 0),
            p.can_parse() == reads_expression(views(tokens@), 0),
            p.wf() ==> p.can_parse(),
    {
        let p = Parser { tokens, current: 0 };
        proof {
            if p.wf() {
                parse_stays_before_eof(p.tokens(), 0);
            }
        }
        p
    }

    /// The next token, not consumed.
    fn peek(&self) -> (t: &Token)
        requires
            self.current < self.tokens@.len(),
        ensures
            t@ == self.tokens()[self.current as int],
    {
        &self.tokens[self.current]
    }

    /// The token just consumed.
    fn previous(&self) -> (t: &Token)
        requires
            0 < self.current <= self.tokens@.len(),
        ensures
            t@ == self.tokens()[self.current - 1],
    {
        &self.tokens[self.current - 1]
    }

    /// Whether the next token is the end of input.
    fn at_end(&self) -> (r: bool)
        requires
            self.current < self.tokens@.len(),
        ensures
            r == (kind_at(self.tokens(), self.current as nat) == TokenList::Engk),
    {
        self.peek().token_type == TokenList::Engk
    }

    /// Consumes the next token unless it is the end of input, and gives
    /// back the last token consumed.
    fn advance(&mut self) -> (t: &Token)
        requires
            old(self).current < old(self).tokens@.len(),
            kind_at(old(self).tokens(), old(self).current as nat) != TokenList::Engk
                || old(self).current > 0,
        ensures
            final(self).tokens() == old(self).tokens(),
            final(self).current == old(self).current + if kind_at(
                old(self).tokens(),
                old(self).current as nat,
            ) == TokenList::Engk {
                0int
            } else {
                1int
            },
            t@ == final(self).tokens()[final(self).current - 1],
    {
        if !self.at_end() {
            assert(self.current < self.tokens.len());
            self.current = self.current + 1;
        }
        self.previous()
    }

    /// Whether the next token is of kind `token_type` (the end of input
    /// never is).
    fn check(&self, token_type: TokenList) -> (r: bool)
        requires
            self.current < self.tokens@.len(),
        ensures
            r == check(self.tokens(), self.current as nat, token_type),
    {
        if self.at_end() {
            return false;
        }
        self.peek().token_type == token_type
    }

    /// Consumes the next token where it is of one of `types`, and says
    /// which.
    fn match_token(&mut self, types: &[TokenList]) -> (r: Option<TokenList>)
        requires
            old(self).current < old(self).tokens@.len(),
        ensures
            final(self).tokens() == old(self).tokens(),
            r == first_match(old(self).tokens(), old(self).current as nat, types@),
            final(self).current == old(self).current + if r is Some { 1int } else { 0 },
    {
        let ghost toks = self.tokens();
        let ghost p = self.current as nat;
        let mut i: usize = 0;
        assert(types@.skip(0) =~= types@);
        while i < types.len()
            invariant
                self.current < self.tokens@.len(),
                self.tokens() == old(self).tokens(),
                self.current == old(self).current,
                toks == old(self).tokens(),
                p == old(self).current,
                i <= types@.len(),
                first_match(toks, p, types@) == first_match(toks, p, types@.skip(i as int)),
            decreases types@.len() - i,
        {
            let t = types[i];
            assert(types@.skip(i as int)[0] == t);
            if self.check(t) {
                self.advance();
                return Some(t);
            }
            assert(types@.skip(i as int).drop_first() =~= types@.skip(i + 1));
            i = i + 1;
        }
        None
    }

    /// Consumes the next token where it is of kind `token_type`; else the
    /// error `message` at the next token.
    fn consume(&mut self, token_type: TokenList, message: &str) -> (r: Result<&Token, ParseError>)
        requires
            old(self).current < old(self).tokens@.len(),
        ensures
            final(self).tokens() == old(self).tokens(),
            check(old(self).tokens(), old(self).current as nat, token_type) ==> (r matches Ok(t)
                && t@ == old(self).tokens()[old(self).current as int] && final(self).current
                == old(self).current + 1),
            !check(old(self).tokens(), old(self).current as nat, token_type) ==> (r matches Err(e)
                && e@ == error_at(old(self).tokens()[old(self).current as int], message@)
                && final(self).current == old(self).current),
    {
        if self.check(token_type) {
            return Ok(self.advance());
        }
        Err(self.error(self.peek(), message))
    }

    /// The error `message` at `token`.
    fn error(&self, token: &Token, message: &str) -> (e: ParseError)
        ensures
            e@ == error_at(token@, message@),
    {
        ParseError { line: token.line, message: String::from_str(message) }
    }

    /// Parses an expression from the next token on: the expression, or the
    /// first error, with the parser moved past the tokens it took.
    pub fn expression(&mut self) -> (r: Result<Expr, ParseError>)
        requires
            old(self).can_parse(),
        ensures
            final(self).tokens() == old(self).tokens(),
            parse_matches(
                r,
                parse_expression(old(self).tokens(), old(self).position()),
                old(self).position(),
                final(self).position(),
            ),
            final(self).wf() == eof_ahead(final(self).tokens(), final(self).position()),
            final(self).can_parse() == reads_expression(final(self).tokens(), final(self).position()),
            old(self).wf() ==> final(self).wf() && final(self).can_parse(),
        decreases old(self).steps_left(), 3nat,
    {
        proof {
            if self.wf() {
                parse_stays_before_eof(self.tokens(), self.current as nat);
            }
        }
        let r = self.term();
        proof {
            if old(self).wf() {
                parse_stays_before_eof(self.tokens(), self.current as nat);
            }
        }
        r
    }

    /// `term -> factor ( ( "+" | "-" ) factor )*`
    fn term(&mut self) -> (r: Result<Expr, ParseError>)
        requires
            reads_term(old(self).tokens(), old(self).position()),
        ensures
            final(self).tokens() == old(self).tokens(),
            parse_matches(
                r,
                parse_term(old(self).tokens(), old(self).position()),
                old(self).position(),
                final(self).position(),
            ),
        decreases old(self).steps_left(), 2nat,
    {
        let ghost toks = self.tokens();
        let ghost p0 = self.current as nat;
        let mut node = self.factor()?;
        loop
            invariant
                self.tokens() == old(self).tokens(),
                toks == old(self).tokens(),
                p0 == old(self).current,
                p0 <= self.current,
                reads_term_rest(toks, self.current as nat),
                parse_term(toks, p0) == shift(
                    parse_term_rest(toks, node@, self.current as nat),
                    (self.current - p0) as nat,
                ),
            decreases self.steps_left(),
        {
            let ops = [TokenList::Plus, TokenList::Minus];
            proof {
                assert(ops@ =~= seq![TokenList::Plus, TokenList::Minus]);
                reveal_with_fuel(first_match, 3);
            }
            match self.match_token(&ops) {
                None => {
                    return Ok(node);
                },
                Some(_) => {
                    let op = self.previous().clone();
                    let right = self.factor()?;
                    node = Expr::Binary { left: Box::new(node), op, right: Box::new(right) };
                },
            }
        }
    }

    /// `factor -> NUMBER | STRING | "(" expression ")"`
    fn factor(&mut self) -> (r: Result<Expr, ParseError>)
        requires
            reads_factor(old(self).tokens(), old(self).position()),
        ensures
            final(self).tokens() == old(self).tokens(),
            parse_matches(
                r,
                parse_factor(old(self).tokens(), old(self).position()),
                old(self).position(),
                final(self).position(),
            ),
        decreases old(self).steps_left(), 0nat,
    {
        match self.peek().token_type {
            TokenList::Number => {
                let val = self.peek().literal.clone();
                self.advance();
                Ok(Expr::Literal(val))
            },
            TokenList::StringLit => {
                let val = self.peek().literal.clone();
                self.advance();
                Ok(Expr::Literal(val))
            },
            TokenList::LeftParen => {
                self.advance();
                let expr = self.expression()?;
                self.consume(TokenList::RightParen, "Expect ')' after expression.")?;
                Ok(Expr::Grouping(Box::new(expr)))
            },
            _ => Err(self.error(self.peek(), "Expect expression.")),
        }
    }
}

} // verus!
