//! What the command-line tool computes from a source text: the lines it
//! prints, or the errors it reports.

use vstd::prelude::*;

use crate::lexical::{scan_ends_with_eof, scan_result, SpecScanError};
use crate::lines::{split_by_line, split_lines};
use crate::parser::{
    eof_ahead, parse_expression, Expr, ParseError, Parser, SpecExpr, SpecParseError,
};
use crate::scanner::{error_views, ScanError, Scanner};
use crate::tokens::{lemma_views_push, token_text, views, SpecToken, Token, TokenList};

verus! {

/// Why a run printed no result: the errors of the scan, or those of the
/// parse.
#[derive(Debug)]
pub enum Failure {
    Scan(Vec<ScanError>),
    Parse(Vec<ParseError>),
}

/// What a [`Failure`] holds, as plain values.
pub enum SpecFailure {
    Scan(Seq<SpecScanError>),
    Parse(Seq<SpecParseError>),
}

/// The views of a sequence of parse errors.
pub open spec fn parse_error_views(v: Seq<ParseError>) -> Seq<SpecParseError> {
    v.map_values(|e: ParseError| e@)
}

impl View for Failure {
    type V = SpecFailure;

    open spec fn view(&self) -> SpecFailure {
        match self {
            Failure::Scan(v) => SpecFailure::Scan(error_views(v@)),
            Failure::Parse(v) => SpecFailure::Parse(parse_error_views(v@)),
        }
    }
}

/// The characters of each string.
pub open spec fn texts(v: Seq<String>) -> Seq<Seq<char>> {
    v.map_values(|s: String| s@)
}

/// The lines that describe the tokens of a scan, one per token.
pub open spec fn token_lines(ts: Seq<SpecToken>) -> Seq<Seq<char>> {
    ts.map_values(|t: SpecToken| token_text(t.token_type))
}

proof fn lemma_texts_push(s: Seq<String>, x: String)
    ensures
        texts(s.push(x)) == texts(s).push(x@),
{
    assert forall|j: int| 0 <= j < s.len() + 1 implies texts(s.push(x))[j] == texts(s).push(x@)[j] by {
        if j < s.len() {
            assert(s.push(x)[j] == s[j]);
        }
    }
    assert(texts(s.push(x)) =~= texts(s).push(x@));
}

proof fn lemma_token_lines_push(s: Seq<SpecToken>, t: SpecToken)
    ensures
        token_lines(s.push(t)) == token_lines(s).push(token_text(t.token_type)),
{
    assert forall|j: int| 0 <= j < s.len() + 1 implies token_lines(s.push(t))[j] == token_lines(
        s,
    ).push(token_text(t.token_type))[j] by {
        if j < s.len() {
            assert(s.push(t)[j] == s[j]);
        }
    }
    assert(token_lines(s.push(t)) =~= token_lines(s).push(token_text(t.token_type)));
}

/// The lines printed for the tokens of `source`: a description of each
/// token where the scan finds no error, else the scan errors.
pub fn tokenize(source: &str) -> (r: Result<Vec<String>, Vec<ScanError>>)
    requires
        source@.len() < usize::MAX,
    ensures
        match scan_result(source@) {
            Ok(ts) => r matches Ok(lines) && texts(lines@) == token_lines(ts),
            Err(es) => r matches Err(v) && error_views(v@) == es,
        },
{
    let scanner = Scanner::new(source);
    match scanner.scan_tokens() {
        Ok(tokens) => {
            let mut lines: Vec<String> = Vec::new();
            let n = tokens.len();
            let mut i: usize = 0;
            while i < n
                invariant
                    n == tokens@.len(),
                    i <= n,
                    texts(lines@) == token_lines(views(tokens@).take(i as int)),
                decreases n - i,
            {
                let ghost before = lines@;
                let line = tokens[i].to_string();
                lines.push(line);
                proof {
                    let ts = views(tokens@);
                    lemma_texts_push(before, line);
                    assert(ts.take(i + 1) =~= ts.take(i as int).push(tokens@[i as int]@));
                    lemma_token_lines_push(ts.take(i as int), tokens@[i as int]@);
                }
                i = i + 1;
            }
            assert(views(tokens@).take(n as int) =~= views(tokens@));
            Ok(lines)
        },
        Err(errors) => Err(errors),
    }
}

/// What parsing one line's tokens gives: the expression, or the error.
pub open spec fn line_result(g: Seq<SpecToken>) -> Result<SpecExpr, SpecParseError> {
    match parse_expression(g, 0) {
        Ok((e, _)) => Ok(e),
        Err((e, _)) => Err(e),
    }
}

/// The expressions among `rs`, in order.
pub open spec fn outputs_of(rs: Seq<Result<SpecExpr, SpecParseError>>) -> Seq<SpecExpr>
    decreases rs.len(),
{
    if rs.len() == 0 {
        seq![]
    } else {
        match rs.last() {
            Ok(o) => outputs_of(rs.drop_last()).push(o),
            Err(_) => outputs_of(rs.drop_last()),
        }
    }
}

/// The errors among `rs`, in order.
pub open spec fn failures_of(rs: Seq<Result<SpecExpr, SpecParseError>>) -> Seq<SpecParseError>
    decreases rs.len(),
{
    if rs.len() == 0 {
        seq![]
    } else {
        match rs.last() {
            Ok(_) => failures_of(rs.drop_last()),
            Err(e) => failures_of(rs.drop_last()).push(e),
        }
    }
}

/// `source` parsed line by line: the expression of every line where no
/// line fails; else the errors of all the lines that fail; or the errors of
/// the scan.
pub open spec fn parse_lines_result(s: Seq<char>) -> Result<Seq<SpecExpr>, SpecFailure> {
    match scan_result(s) {
        Err(es) => Err(SpecFailure::Scan(es)),
        Ok(ts) => {
            let rs = split_lines(ts).map_values(|g: Seq<SpecToken>| line_result(g));
            if failures_of(rs).len() == 0 {
                Ok(outputs_of(rs))
            } else {
                Err(SpecFailure::Parse(failures_of(rs)))
            }
        },
    }
}

/// The plain values of a list of expressions.
pub open spec fn expr_views(v: Seq<Expr>) -> Seq<SpecExpr> {
    v.map_values(|e: Expr| e@)
}

/// A copy of a list of tokens.
fn copy_tokens(v: &Vec<Token>) -> (r: Vec<Token>)
    ensures
        views(r@) == views(v@),
{
    let mut r: Vec<Token> = Vec::new();
    let n = v.len();
    let mut i: usize = 0;
    while i < n
        invariant
            n == v@.len(),
            i <= n,
            views(r@) == views(v@).take(i as int),
        decreases n - i,
    {
        let ghost before = r@;
        let c = v[i].clone();
        assert(c@ == v@[i as int]@);
        r.push(c);
        proof {
            lemma_views_push(before, c);
            assert(views(v@).take(i + 1) =~= views(v@).take(i as int).push(v@[i as int]@));
        }
        i = i + 1;
    }
    assert(views(v@).take(n as int) =~= views(v@));
    r
}

/// Scans `source`, then parses each of its lines as an expression: the
/// expressions, where every line parses; else the errors.
pub fn parse_lines(source: &str) -> (r: Result<Vec<Expr>, Failure>)
    requires
        source@.len() < usize::MAX,
    ensures
        match r {
            Ok(v) => parse_lines_result(source@) == Ok::<Seq<SpecExpr>, SpecFailure>(expr_views(v@)),
            Err(f) => parse_lines_result(source@) == Err::<Seq<SpecExpr>, SpecFailure>(f@),
        },
{
    let scanner = Scanner::new(source);
    let tokens = match scanner.scan_tokens() {
        Ok(t) => t,
        Err(errors) => {
            return Err(Failure::Scan(errors));
        },
    };
    let ghost ts = views(tokens@);
    let groups = split_by_line(tokens);
    let ghost rs = split_lines(ts).map_values(|g: Seq<SpecToken>| line_result(g));
    let mut outputs: Vec<Expr> = Vec::new();
    let mut errors: Vec<ParseError> = Vec::new();
    let n = groups.len();
    let mut i: usize = 0;
    while i < n
        invariant
            n == groups@.len() == rs.len(),
            i <= n,
            forall|j: int| 0 <= j < n ==> views(#[trigger] groups@[j]@) == split_lines(ts)[j],
            rs == split_lines(ts).map_values(|g: Seq<SpecToken>| line_result(g)),
            expr_views(outputs@) == outputs_of(rs.take(i as int)),
            parse_error_views(errors@) == failures_of(rs.take(i as int)),
        decreases n - i,
    {
        let ghost g = split_lines(ts)[i as int];
        assert(g.last().token_type == TokenList::Engk);
        assert(eof_ahead(g, 0));
        let mut parser = Parser::new(copy_tokens(&groups[i]));
        assert(rs.take(i + 1).drop_last() =~= rs.take(i as int));
        match parser.expression() {
            Ok(expr) => {
                outputs.push(expr);
                assert(expr_views(outputs@) =~= outputs_of(rs.take(i + 1)));
                assert(parse_error_views(errors@) =~= failures_of(rs.take(i + 1)));
            },
            Err(e) => {
                errors.push(e);
                assert(expr_views(outputs@) =~= outputs_of(rs.take(i + 1)));
                assert(parse_error_views(errors@) =~= failures_of(rs.take(i + 1)));
            },
        }
        i = i + 1;
    }
    assert(rs.take(n as int) =~= rs);
    if errors.len() == 0 {
        Ok(outputs)
    } else {
        Err(Failure::Parse(errors))
    }
}

/// The result of one line typed at the prompt: the source is scanned and
/// all its tokens parsed as one expression.
pub open spec fn line_of_prompt(s: Seq<char>) -> Result<SpecExpr, SpecFailure> {
    match scan_result(s) {
        Err(es) => Err(SpecFailure::Scan(es)),
        Ok(ts) => match parse_expression(ts, 0) {
            Ok((e, _)) => Ok(e),
            Err((e, _)) => Err(SpecFailure::Parse(seq![e])),
        },
    }
}

/// Scans `source` and parses its tokens as one expression: the
/// expression, or the errors.
pub fn parse_line(source: &str) -> (r: Result<Expr, Failure>)
    requires
        source@.len() < usize::MAX,
    ensures
        match r {
            Ok(x) => line_of_prompt(source@) == Ok::<SpecExpr, SpecFailure>(x@),
            Err(f) => line_of_prompt(source@) == Err::<SpecExpr, SpecFailure>(f@),
        },
{
    let scanner = Scanner::new(source);
    match scanner.scan_tokens() {
        Ok(tokens) => {
            proof {
                scan_ends_with_eof(source@);
                let ts = views(tokens@);
                assert(ts[ts.len() - 1].token_type == TokenList::Engk);
            }
            let mut parser = Parser::new(tokens);
            match parser.expression() {
                Ok(expr) => Ok(expr),
                Err(e) => {
                    let mut errors: Vec<ParseError> = Vec::new();
                    errors.push(e);
                    assert(parse_error_views(errors@) =~= seq![errors@[0]@]);
                    Err(Failure::Parse(errors))
                },
            }
        },
        Err(errors) => Err(Failure::Scan(errors)),
    }
}

proof fn lemma_line_results(rs: Seq<Result<SpecExpr, SpecParseError>>)
    ensures
        (failures_of(rs).len() == 0) == (forall|i: int| 0 <= i < rs.len() ==> (#[trigger] rs[i]) is Ok),
        (forall|i: int| 0 <= i < rs.len() ==> (#[trigger] rs[i]) is Ok) ==> {
            &&& outputs_of(rs).len() == rs.len()
            &&& forall|i: int| 0 <= i < rs.len() ==> Ok::<SpecExpr, SpecParseError>(#[trigger] outputs_of(rs)[i]) == rs[i]
        },
        forall|j: int|
            0 <= j < rs.len() && (#[trigger] rs[j]) is Err && (forall|i: int| 0 <= i < j ==> (#[trigger] rs[i]) is Ok)
                ==> failures_of(rs).len() > 0 && Err::<SpecExpr, SpecParseError>(failures_of(rs)[0]) == rs[j],
    decreases rs.len(),
{
    if rs.len() > 0 {
        let r0 = rs.drop_last();
        lemma_line_results(r0);
        assert forall|i: int| 0 <= i < r0.len() implies r0[i] == rs[i] by {}
        if forall|i: int| 0 <= i < rs.len() ==> (#[trigger] rs[i]) is Ok {
            assert(forall|i: int| 0 <= i < r0.len() ==> (#[trigger] r0[i]) is Ok);
        }
        if !(forall|i: int| 0 <= i < r0.len() ==> (#[trigger] r0[i]) is Ok) {
            let k = choose|i: int| 0 <= i < r0.len() && !((#[trigger] r0[i]) is Ok);
            assert(!(rs[k] is Ok));
        }
        assert forall|j: int|
            0 <= j < rs.len() && (#[trigger] rs[j]) is Err && (forall|i: int| 0 <= i < j ==> (#[trigger] rs[i]) is Ok)
                implies failures_of(rs).len() > 0 && Err::<SpecExpr, SpecParseError>(failures_of(rs)[0]) == rs[j] by {
            if j < rs.len() - 1 {
                assert(r0[j] == rs[j]);
                assert(forall|i: int| 0 <= i < j ==> (#[trigger] r0[i]) is Ok);
            } else {
                assert(forall|i: int| 0 <= i < r0.len() ==> (#[trigger] r0[i]) is Ok);
            }
        }
    }
}

/// Whether `r` is a failure to parse whose first error is `e`.
pub open spec fn first_line_error(r: Result<Seq<SpecExpr>, SpecFailure>, e: SpecParseError) -> bool {
    r matches Err(SpecFailure::Parse(errs)) && errs.len() > 0 && errs[0] == e
}

/// A run parses line by line and succeeds exactly when every line parses:
/// then it gives the expression of each line, in order; where some line
/// fails, it fails, and the first error it reports is that of the first
/// line that fails, wherever that line is. A failing scan fails the run
/// with the scan errors.
pub proof fn parse_lines_needs_every_line(s: Seq<char>)
    ensures
        match scan_result(s) {
            Err(es) => parse_lines_result(s) == Err::<Seq<SpecExpr>, SpecFailure>(SpecFailure::Scan(es)),
            Ok(ts) => {
                let gs = split_lines(ts);
                &&& (parse_lines_result(s) is Ok) == (forall|i: int|
                    0 <= i < gs.len() ==> (#[trigger] parse_expression(gs[i], 0)) is Ok)
                &&& parse_lines_result(s) matches Ok(es) ==> {
                    &&& es.len() == gs.len()
                    &&& forall|i: int| 0 <= i < gs.len() ==> (#[trigger] parse_expression(gs[i], 0)) is Ok
                        && parse_expression(gs[i], 0)->Ok_0.0 == es[i]
                }
                &&& forall|j: int|
                    0 <= j < gs.len() && (#[trigger] parse_expression(gs[j], 0)) is Err && (forall|i: int|
                        0 <= i < j ==> (#[trigger] parse_expression(gs[i], 0)) is Ok) ==> first_line_error(parse_lines_result(s), parse_expression(gs[j], 0)->Err_0.0)
            },
        },
{
    match scan_result(s) {
        Err(es) => {},
        Ok(ts) => {
            let gs = split_lines(ts);
            let rs = gs.map_values(|g: Seq<SpecToken>| line_result(g));
            lemma_line_results(rs);
            assert forall|i: int| 0 <= i < gs.len() implies ((#[trigger] rs[i]) is Ok) == (parse_expression(gs[i], 0) is Ok) by {}
            assert forall|j: int|
                0 <= j < gs.len() && (#[trigger] parse_expression(gs[j], 0)) is Err && (forall|i: int|
                    0 <= i < j ==> (#[trigger] parse_expression(gs[i], 0)) is Ok) implies first_line_error(parse_lines_result(s), parse_expression(gs[j], 0)->Err_0.0) by {
                assert(rs[j] is Err);
                assert forall|i: int| 0 <= i < j implies (#[trigger] rs[i]) is Ok by {
                    assert(parse_expression(gs[i], 0) is Ok);
                }
                assert(!(forall|i: int| 0 <= i < rs.len() ==> (#[trigger] rs[i]) is Ok));
            }
            if parse_lines_result(s) is Ok {
                assert forall|i: int| 0 <= i < gs.len() implies (#[trigger] parse_expression(gs[i], 0)) is Ok
                    && parse_expression(gs[i], 0)->Ok_0.0 == outputs_of(rs)[i] by {
                    assert(rs[i] is Ok);
                }
            } else {
                if forall|i: int| 0 <= i < gs.len() ==> (#[trigger] parse_expression(gs[i], 0)) is Ok {
                    assert forall|i: int| 0 <= i < rs.len() implies (#[trigger] rs[i]) is Ok by {
                        assert(parse_expression(gs[i], 0) is Ok);
                    }
                }
            }
        },
    }
}

} // verus!
