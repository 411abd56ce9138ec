//! Splitting a token list into one list per source line, each closed by an
//! end-of-input token of its own, so that every line parses on its own.

use vstd::prelude::*;

use crate::tokens::{views, Literal, SpecLiteral, SpecToken, Token, TokenList};

verus! {

/// The position of the first end-of-input token at or after `i`, or the
/// length of `toks` where there is none.
pub open spec fn first_eof(toks: Seq<SpecToken>, i: int) -> int
    decreases toks.len() - i,
{
    if 0 <= i < toks.len() && toks[i].token_type != TokenList::Engk {
        first_eof(toks, i + 1)
    } else {
        i
    }
}

/// The tokens before the first end-of-input token.
pub open spec fn before_eof(toks: Seq<SpecToken>) -> Seq<SpecToken> {
    toks.take(first_eof(toks, 0))
}

/// `toks` cut into its runs of consecutive tokens on one line, in order.
pub open spec fn line_groups(toks: Seq<SpecToken>) -> Seq<Seq<SpecToken>>
    decreases toks.len(),
{
    if toks.len() == 0 {
        seq![]
    } else {
        add_token(line_groups(toks.drop_last()), toks.last())
    }
}

/// `groups` with `t` added: to the last group where `t` is on that group's
/// line, else as a group of its own.
pub open spec fn add_token(groups: Seq<Seq<SpecToken>>, t: SpecToken) -> Seq<Seq<SpecToken>> {
    if groups.len() > 0 && groups.last().len() > 0 && groups.last().last().line == t.line {
        groups.update(groups.len() - 1, groups.last().push(t))
    } else {
        groups.push(seq![t])
    }
}

/// The line of a group: that of its last token, or 1 for no token.
pub open spec fn group_line(g: Seq<SpecToken>) -> nat {
    if g.len() > 0 {
        g.last().line
    } else {
        1
    }
}

/// An end-of-input token on line `line`.
pub open spec fn eof_on(line: nat) -> SpecToken {
    SpecToken { token_type: TokenList::Engk, lexeme: seq![], literal: SpecLiteral::Nil, line }
}

/// A group closed by an end-of-input token on its line.
pub open spec fn closed(g: Seq<SpecToken>) -> Seq<SpecToken> {
    g.push(eof_on(group_line(g)))
}

/// The tokens before the first end of input, one group per run of tokens
/// on one line, each group closed by an end-of-input token on its line.
pub open spec fn split_lines(toks: Seq<SpecToken>) -> Seq<Seq<SpecToken>> {
    line_groups(before_eof(toks)).map_values(|g: Seq<SpecToken>| closed(g))
}

/// The views of a list of token lists.
pub open spec fn group_views(gs: Seq<Vec<Token>>) -> Seq<Seq<SpecToken>> {
    gs.map_values(|g: Vec<Token>| views(g@))
}

/// The groups of `line_groups` are never empty.
pub proof fn lemma_groups_nonempty(toks: Seq<SpecToken>)
    ensures
        forall|i: int| 0 <= i < line_groups(toks).len() ==> #[trigger] line_groups(toks)[i].len() > 0,
        toks.len() > 0 <==> line_groups(toks).len() > 0,
    decreases toks.len(),
{
    if toks.len() > 0 {
        lemma_groups_nonempty(toks.drop_last());
    }
}

/// The groups joined back together, in order.
pub open spec fn flatten(gs: Seq<Seq<SpecToken>>) -> Seq<SpecToken>
    decreases gs.len(),
{
    if gs.len() == 0 {
        seq![]
    } else {
        flatten(gs.drop_last()) + gs.last()
    }
}

/// Whether no token of `s` is an end-of-input token.
pub open spec fn no_eof(s: Seq<SpecToken>) -> bool {
    forall|k: int| 0 <= k < s.len() ==> (#[trigger] s[k]).token_type != TokenList::Engk
}

/// Whether every group holds tokens of one line, at least one, and two
/// groups in a row are on different lines.
pub open spec fn runs_of_lines(gs: Seq<Seq<SpecToken>>) -> bool {
    &&& forall|i: int| 0 <= i < gs.len() ==> (#[trigger] gs[i]).len() > 0
    &&& forall|i: int, j: int|
        0 <= i < gs.len() && 0 <= j < gs[i].len() ==> (#[trigger] gs[i][j]).line == gs[i][0].line
    &&& forall|i: int, k: int|
        #![trigger gs[i], gs[k]]
        0 <= i && k == i + 1 && k < gs.len() ==> gs[i][0].line != gs[k][0].line
}

proof fn lemma_groups_flatten(s: Seq<SpecToken>)
    ensures
        flatten(line_groups(s)) == s,
    decreases s.len(),
{
    if s.len() > 0 {
        let s0 = s.drop_last();
        let t = s.last();
        lemma_groups_flatten(s0);
        let g0 = line_groups(s0);
        let gs = line_groups(s);
        assert(s0 + seq![t] =~= s);
        if g0.len() > 0 && g0.last().len() > 0 && g0.last().last().line == t.line {
            assert(gs.drop_last() =~= g0.drop_last());
            assert(gs.last() == g0.last().push(t));
            assert(flatten(gs) =~= flatten(g0.drop_last()) + g0.last().push(t));
        } else {
            assert(gs.drop_last() =~= g0);
            assert(flatten(gs) =~= flatten(g0) + seq![t]);
        }
    }
}

proof fn lemma_runs_join(g0: Seq<Seq<SpecToken>>, t: SpecToken)
    requires
        runs_of_lines(g0),
        g0.len() > 0,
        g0.last().last().line == t.line,
    ensures
        runs_of_lines(g0.update(g0.len() - 1, g0.last().push(t))),
{
    let n = g0.len();
    let gs = g0.update(n - 1, g0.last().push(t));
    assert(g0.last()[g0.last().len() - 1].line == g0.last()[0].line);
    assert forall|i: int| 0 <= i < gs.len() implies (#[trigger] gs[i]).len() > 0 by {
        if i < n - 1 {
            assert(gs[i] == g0[i]);
        }
    }
    assert forall|i: int, j: int| 0 <= i < gs.len() && 0 <= j < gs[i].len() implies (
    #[trigger] gs[i][j]).line == gs[i][0].line by {
        if i < n - 1 {
            assert(gs[i] == g0[i]);
        } else if j < g0.last().len() {
            assert(gs[i][j] == g0[i][j]);
        }
    }
    assert forall|i: int, k: int| 0 <= i && k == i + 1 && k < gs.len() implies #[trigger] gs[i][0].line
        != #[trigger] gs[k][0].line by {
        assert(gs[i] == g0[i]);
        assert(gs[k][0] == g0[k][0]);
    }
}

proof fn lemma_runs_start(g0: Seq<Seq<SpecToken>>, t: SpecToken)
    requires
        runs_of_lines(g0),
        g0.len() > 0 ==> g0.last().last().line != t.line,
    ensures
        runs_of_lines(g0.push(seq![t])),
{
    let n = g0.len();
    let gs = g0.push(seq![t]);
    assert forall|i: int| 0 <= i < gs.len() implies (#[trigger] gs[i]).len() > 0 by {
        if i < n {
            assert(gs[i] == g0[i]);
        }
    }
    assert forall|i: int, j: int| 0 <= i < gs.len() && 0 <= j < gs[i].len() implies (
    #[trigger] gs[i][j]).line == gs[i][0].line by {
        if i < n {
            assert(gs[i] == g0[i]);
        }
    }
    assert forall|i: int, k: int| 0 <= i && k == i + 1 && k < gs.len() implies #[trigger] gs[i][0].line
        != #[trigger] gs[k][0].line by {
        assert(gs[i] == g0[i]);
        if k < n {
            assert(gs[k] == g0[k]);
        } else {
            assert(g0.last()[g0.last().len() - 1].line == g0.last()[0].line);
        }
    }
}

proof fn lemma_groups_runs(s: Seq<SpecToken>)
    ensures
        runs_of_lines(line_groups(s)),
    decreases s.len(),
{
    if s.len() > 0 {
        let g0 = line_groups(s.drop_last());
        let t = s.last();
        lemma_groups_runs(s.drop_last());
        if g0.len() > 0 && g0.last().len() > 0 && g0.last().last().line == t.line {
            lemma_runs_join(g0, t);
        } else {
            if g0.len() > 0 {
                assert(g0.last().len() > 0);
            }
            lemma_runs_start(g0, t);
        }
    }
}

#[verifier::spinoff_prover]
proof fn lemma_groups_no_eof(s: Seq<SpecToken>)
    requires
        no_eof(s),
    ensures
        forall|i: int| 0 <= i < line_groups(s).len() ==> no_eof(#[trigger] line_groups(s)[i]),
    decreases s.len(),
{
    if s.len() > 0 {
        let s0 = s.drop_last();
        let t = s.last();
        assert(no_eof(s0)) by {
            assert forall|k: int| 0 <= k < s0.len() implies (#[trigger] s0[k]).token_type
                != TokenList::Engk by {
                assert(s0[k] == s[k]);
            }
        }
        assert(t == s[s.len() - 1]);
        lemma_groups_no_eof(s0);
        let g0 = line_groups(s0);
        let gs = line_groups(s);
        let n = g0.len();
        if g0.len() > 0 && g0.last().len() > 0 && g0.last().last().line == t.line {
            assert(gs == g0.update(n - 1, g0.last().push(t)));
            assert forall|i: int| 0 <= i < gs.len() implies no_eof(#[trigger] gs[i]) by {
                if i == n - 1 {
                    assert(no_eof(g0[i]));
                    assert forall|k: int| 0 <= k < gs[i].len() implies (
                    #[trigger] gs[i][k]).token_type != TokenList::Engk by {
                        if k < g0.last().len() {
                            assert(gs[i][k] == g0[i][k]);
                        }
                    }
                } else {
                    assert(gs[i] == g0[i]);
                }
            }
        } else {
            assert(gs == g0.push(seq![t]));
            assert forall|i: int| 0 <= i < gs.len() implies no_eof(#[trigger] gs[i]) by {
                if i < n {
                    assert(gs[i] == g0[i]);
                }
            }
        }
    }
}

proof fn lemma_first_eof(toks: Seq<SpecToken>, i: int)
    requires
        0 <= i <= toks.len(),
    ensures
        i <= first_eof(toks, i) <= toks.len(),
        forall|k: int| i <= k < first_eof(toks, i) ==> (#[trigger] toks[k]).token_type != TokenList::Engk,
    decreases toks.len() - i,
{
    if i < toks.len() && toks[i].token_type != TokenList::Engk {
        lemma_first_eof(toks, i + 1);
    }
}

/// How a token list is split into lines: joined back together, the groups
/// give the tokens before the first end of input; each group holds the
/// tokens of one line, at least one, and is closed by an end-of-input token
/// on that line, the only one in the group; and two groups in a row are on
/// different lines.
pub proof fn split_lines_laws(toks: Seq<SpecToken>)
    ensures
        ({
            let gs = split_lines(toks);
            &&& flatten(line_groups(before_eof(toks))) == before_eof(toks)
            &&& gs.len() == line_groups(before_eof(toks)).len()
            &&& forall|i: int|
                0 <= i < gs.len() ==> {
                    &&& (#[trigger] gs[i]).len() >= 2
                    &&& gs[i].drop_last() == line_groups(before_eof(toks))[i]
                    &&& gs[i].last() == eof_on(gs[i][0].line)
                    &&& forall|j: int|
                        0 <= j < gs[i].len() - 1 ==> (#[trigger] gs[i][j]).line == gs[i][0].line
                            && gs[i][j].token_type != TokenList::Engk
                }
            &&& forall|i: int, k: int|
                #![trigger gs[i], gs[k]]
                0 <= i && k == i + 1 && k < gs.len() ==> gs[i][0].line != gs[k][0].line
        }),
{
    let s = before_eof(toks);
    lemma_first_eof(toks, 0);
    assert(no_eof(s)) by {
        assert forall|k: int| 0 <= k < s.len() implies (#[trigger] s[k]).token_type != TokenList::Engk by {
            assert(s[k] == toks[k]);
        }
    }
    lemma_groups_flatten(s);
    lemma_groups_runs(s);
    lemma_groups_no_eof(s);
    let lg = line_groups(s);
    let gs = split_lines(toks);
    assert forall|i: int| 0 <= i < gs.len() implies {
        &&& (#[trigger] gs[i]).len() >= 2
        &&& gs[i].drop_last() == lg[i]
        &&& gs[i].last() == eof_on(gs[i][0].line)
        &&& forall|j: int|
            0 <= j < gs[i].len() - 1 ==> (#[trigger] gs[i][j]).line == gs[i][0].line
                && gs[i][j].token_type != TokenList::Engk
    } by {
        lemma_closed_group(lg, i);
    }
    assert forall|i: int, k: int| 0 <= i && k == i + 1 && k < gs.len() implies #[trigger] gs[i][0].line
        != #[trigger] gs[k][0].line by {
        assert(gs[i][0] == lg[i][0]);
        assert(gs[k][0] == lg[k][0]);
    }
}

proof fn lemma_closed_group(lg: Seq<Seq<SpecToken>>, i: int)
    requires
        runs_of_lines(lg),
        0 <= i < lg.len(),
        no_eof(lg[i]),
    ensures
        ({
            let g = closed(lg[i]);
            &&& g.len() >= 2
            &&& g.drop_last() == lg[i]
            &&& g.last() == eof_on(g[0].line)
            &&& forall|j: int|
                0 <= j < g.len() - 1 ==> (#[trigger] g[j]).line == g[0].line && g[j].token_type
                    != TokenList::Engk
        }),
{
    let g = closed(lg[i]);
    assert(lg[i].len() > 0);
    assert(g.drop_last() =~= lg[i]);
    assert(g[0] == lg[i][0]);
    assert(lg[i][lg[i].len() - 1].line == lg[i][0].line);
    assert forall|j: int| 0 <= j < g.len() - 1 implies (#[trigger] g[j]).line == g[0].line
        && g[j].token_type != TokenList::Engk by {
        assert(g[j] == lg[i][j]);
    }
}

/// An end-of-input token on line `line`.
fn eof_token_on(line: usize) -> (t: Token)
    ensures
        t@ == eof_on(line as nat),
{
    Token { token_type: TokenList::Engk, lexeme: String::new(), literal: Literal::Nil, line }
}

/// Cuts `tokens`, up to its first end-of-input token, into one list per
/// run of tokens on one line, and closes each list with an end-of-input
/// token on that line.
pub fn split_by_line(tokens: Vec<Token>) -> (groups: Vec<Vec<Token>>)
    ensures
        group_views(groups@) == split_lines(views(tokens@)),
{
    let ghost toks = views(tokens@);
    let mut groups: Vec<Vec<Token>> = Vec::new();
    let mut group: Vec<Token> = Vec::new();
    let mut current_line: Option<usize> = None;
    let n = tokens.len();
    let mut i: usize = 0;
    while i < n
        invariant_except_break
            first_eof(toks, i as int) == first_eof(toks, 0),
        invariant
            i <= n == tokens@.len(),
            toks == views(tokens@),
            ({
                let gs = line_groups(toks.take(i as int));
                if gs.len() == 0 {
                    &&& groups@.len() == 0
                    &&& current_line is None
                } else {
                    &&& group_views(groups@) == gs.drop_last().map_values(
                        |g: Seq<SpecToken>| closed(g),
                    )
                    &&& views(group@) == gs.last()
                    &&& current_line matches Some(l) && l as nat == gs.last().last().line
                    &&& gs.last().len() > 0
                }
            }),
        ensures
            first_eof(toks, 0) == i,
        decreases n - i,
    {
        let tok = tokens[i].clone();
        if tok.token_type == TokenList::Engk {
            break;
        }
        let ghost gs_old = line_groups(toks.take(i as int));
        let ghost t = toks[i as int];
        let ghost gs_new = line_groups(toks.take(i + 1));
        proof {
            lemma_groups_nonempty(toks.take(i as int));
            assert(toks.take(i + 1).drop_last() =~= toks.take(i as int));
            assert(toks.take(i + 1).last() == t);
            assert(t == tok@);
        }
        match current_line {
            Some(line) if line == tok.line => {
                let ghost before = group@;
                group.push(tok);
                proof {
                    assert(gs_new == gs_old.update(gs_old.len() - 1, gs_old.last().push(t)));
                    assert(views(group@) =~= views(before).push(t));
                    assert(gs_new.drop_last() =~= gs_old.drop_last());
                }
            },
            _ => {
                proof {
                    assert(gs_new == gs_old.push(seq![t]));
                    assert(gs_new.drop_last() =~= gs_old);
                }
                if let Some(line) = current_line {
                    let ghost before = group@;
                    let ghost before_groups = groups@;
                    group.push(eof_token_on(line));
                    groups.push(group);
                    proof {
                        assert(views(groups@.last()@) =~= closed(gs_old.last()));
                        assert(group_views(groups@) =~= group_views(before_groups).push(
                            views(groups@.last()@),
                        ));
                        assert(gs_old.drop_last().push(gs_old.last()) =~= gs_old);
                        assert(gs_old.map_values(|g: Seq<SpecToken>| closed(g)) =~= gs_old.drop_last().map_values(
                            |g: Seq<SpecToken>| closed(g),
                        ).push(closed(gs_old.last())));
                    }
                }
                current_line = Some(tok.line);
                group = Vec::new();
                group.push(tok);
                proof {
                    assert(views(group@) =~= seq![t]);
                    if gs_old.len() == 0 {
                        assert(gs_new.drop_last().map_values(|g: Seq<SpecToken>| closed(g)) =~= seq![]);
                        assert(group_views(groups@) =~= seq![]);
                    }
                }
            },
        }
        i = i + 1;
    }
    let ghost gs = line_groups(toks.take(i as int));
    proof {
        assert(toks.take(i as int) == before_eof(toks));
    }
    if let Some(line) = current_line {
        let ghost before_groups = groups@;
        group.push(eof_token_on(line));
        groups.push(group);
        proof {
            assert(views(groups@.last()@) =~= closed(gs.last()));
            assert(group_views(groups@) =~= group_views(before_groups).push(views(groups@.last()@)));
            assert(gs.drop_last().push(gs.last()) =~= gs);
            assert(gs.map_values(|g: Seq<SpecToken>| closed(g)) =~= gs.drop_last().map_values(
                |g: Seq<SpecToken>| closed(g),
            ).push(closed(gs.last())));
        }
    } else {
        assert(group_views(groups@) =~= gs.map_values(|g: Seq<SpecToken>| closed(g)));
    }
    groups
}

} // verus!
