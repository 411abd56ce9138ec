//! The lexical grammar, as spec functions over the characters of a source.
//!
//! Scanning reads the source from left to right. At each position one step
//! decides, from the character there and those after it, how far the step
//! reaches and whether it yields a token, nothing (white space, comments) or
//! an error. The scan of a source is the list of what the steps yield,
//! followed by one end-of-input token.

use vstd::prelude::*;

use crate::tokens::{SpecLiteral, SpecToken, TokenList};

verus! {

/// An error found while scanning: the line it was found on and a message.
pub struct SpecScanError {
    pub line: nat,
    pub message: Seq<char>,
}

/// What one scanning step yields.
pub enum Step {
    Token(SpecToken),
    Skip,
    Error(SpecScanError),
}

/// What the scanner hands out, one item at a time.
pub type ScanItem = Result<SpecToken, SpecScanError>;

pub open spec fn is_digit(c: char) -> bool {
    '0' as u32 <= c as u32 && c as u32 <= '9' as u32
}

pub open spec fn is_alpha(c: char) -> bool {
    ('a' as u32 <= c as u32 && c as u32 <= 'z' as u32) || ('A' as u32 <= c as u32 && c as u32
        <= 'Z' as u32)
}

/// A character that can begin an identifier.
pub open spec fn can_start_identifier(c: char) -> bool {
    is_alpha(c) || c == '_'
}

/// A character that can continue an identifier.
pub open spec fn can_continue_identifier(c: char) -> bool {
    is_alpha(c) || is_digit(c) || c == '_'
}

/// The number of line breaks in `s`.
pub open spec fn newlines(s: Seq<char>) -> nat
    decreases s.len(),
{
    if s.len() == 0 {
        0
    } else {
        newlines(s.drop_last()) + if s.last() == '\n' {
            1nat
        } else {
            0nat
        }
    }
}

/// The line on which position `i` of `s` lies; lines count from 1.
pub open spec fn line_at(s: Seq<char>, i: int) -> nat {
    1 + newlines(s.take(i))
}

/// The characters of a class, as a predicate.
pub enum CharClass {
    Digit,
    IdentifierContinue,
    /// Every character but the given one.
    Not(char),
}

pub open spec fn in_class(k: CharClass, c: char) -> bool {
    match k {
        CharClass::Digit => is_digit(c),
        CharClass::IdentifierContinue => can_continue_identifier(c),
        CharClass::Not(d) => c != d,
    }
}

/// The first position at or after `i` whose character is not in class `k`,
/// or the length of `s` when there is none.
pub open spec fn skip_class(s: Seq<char>, i: int, k: CharClass) -> int
    decreases s.len() - i,
{
    if 0 <= i < s.len() && in_class(k, s[i]) {
        skip_class(s, i + 1, k)
    } else {
        i
    }
}

/// Whether the character after position `i` is `d`.
pub open spec fn next_is(s: Seq<char>, i: int, d: char) -> bool {
    i + 1 < s.len() && s[i + 1] == d
}

/// Where a number literal that begins at `start` ends: digits, then a
/// fraction only where a dot is followed by a digit.
pub open spec fn number_end(s: Seq<char>, start: int) -> int {
    let i = skip_class(s, start + 1, CharClass::Digit);
    if i + 1 < s.len() && s[i] == '.' && is_digit(s[i + 1]) {
        skip_class(s, i + 1, CharClass::Digit)
    } else {
        i
    }
}

/// The kind of a keyword, where `text` is one.
pub open spec fn keyword(text: Seq<char>) -> Option<TokenList> {
    if text == "and"@ {
        Some(TokenList::And)
    } else if text == "false"@ {
        Some(TokenList::False)
    } else if text == "true"@ {
        Some(TokenList::True)
    } else if text == "evolve"@ {
        Some(TokenList::Evolve)
    } else if text == "until"@ {
        Some(TokenList::Until)
    } else if text == "when"@ {
        Some(TokenList::When)
    } else if text == "nil"@ {
        Some(TokenList::Nil)
    } else if text == "or"@ {
        Some(TokenList::Or)
    } else if text == "print"@ {
        Some(TokenList::Print)
    } else if text == "return"@ {
        Some(TokenList::Return)
    } else if text == "var"@ {
        Some(TokenList::Var)
    } else if text == "law"@ {
        Some(TokenList::Law)
    } else if text == "entity"@ {
        Some(TokenList::Entity)
    } else {
        None
    }
}

/// Where the step that begins at `start` ends (exclusive).
pub open spec fn step_end(s: Seq<char>, start: int) -> int {
    let c = s[start];
    if c == '-' {
        if next_is(s, start, '>') { start + 2 } else { start + 1 }
    } else if c == '!' || c == '=' || c == '>' || c == '<' {
        if next_is(s, start, '=') { start + 2 } else { start + 1 }
    } else if c == '/' {
        if next_is(s, start, '/') {
            skip_class(s, start + 2, CharClass::Not('\n'))
        } else {
            start + 1
        }
    } else if c == '"' {
        let close = skip_class(s, start + 1, CharClass::Not('"'));
        if close < s.len() { close + 1 } else { s.len() as int }
    } else if is_digit(c) {
        number_end(s, start)
    } else if can_start_identifier(c) {
        skip_class(s, start + 1, CharClass::IdentifierContinue)
    } else {
        start + 1
    }
}

/// A token with no value, read from `s[start..end]`.
pub open spec fn plain_token(s: Seq<char>, start: int, end: int, kind: TokenList) -> SpecToken {
    SpecToken {
        token_type: kind,
        lexeme: s.subrange(start, end),
        literal: SpecLiteral::Nil,
        line: line_at(s, start),
    }
}

/// The kind of a token of one or two characters: `two` where the next
/// character is `second`, else `one`.
pub open spec fn one_or_two(s: Seq<char>, start: int, second: char, one: TokenList, two: TokenList) -> TokenList {
    if next_is(s, start, second) { two } else { one }
}

/// The message of the error for an unexpected character.
pub open spec fn unexpected_message(c: char) -> Seq<char> {
    "Unexpected character '"@ + seq![c] + "'"@
}

/// What the step that begins at `start` yields.
pub open spec fn step_outcome(s: Seq<char>, start: int) -> Step {
    let c = s[start];
    let end = step_end(s, start);
    let line = line_at(s, start);
    if c == '(' {
        Step::Token(plain_token(s, start, end, TokenList::LeftParen))
    } else if c == ')' {
        Step::Token(plain_token(s, start, end, TokenList::RightParen))
    } else if c == '{' {
        Step::Token(plain_token(s, start, end, TokenList::LeftBrace))
    } else if c == '}' {
        Step::Token(plain_token(s, start, end, TokenList::RightBrace))
    } else if c == ',' {
        Step::Token(plain_token(s, start, end, TokenList::Comma))
    } else if c == '.' {
        Step::Token(plain_token(s, start, end, TokenList::Dot))
    } else if c == '+' {
        Step::Token(plain_token(s, start, end, TokenList::Plus))
    } else if c == '*' {
        Step::Token(plain_token(s, start, end, TokenList::Star))
    } else if c == '%' {
        Step::Token(plain_token(s, start, end, TokenList::Modulo))
    } else if c == ';' {
        Step::Token(plain_token(s, start, end, TokenList::Semicolon))
    } else if c == ':' {
        Step::Token(plain_token(s, start, end, TokenList::Colon))
    } else if c == '-' {
        Step::Token(
            plain_token(s, start, end, one_or_two(s, start, '>', TokenList::Minus, TokenList::Arrow)),
        )
    } else if c == '!' {
        Step::Token(
            plain_token(s, start, end, one_or_two(s, start, '=', TokenList::Not, TokenList::NotEqual)),
        )
    } else if c == '=' {
        Step::Token(
            plain_token(s, start, end, one_or_two(s, start, '=', TokenList::Assign, TokenList::EqualTo)),
        )
    } else if c == '>' {
        Step::Token(
            plain_token(
                s,
                start,
                end,
                one_or_two(s, start, '=', TokenList::Greater, TokenList::GreaterEql),
            ),
        )
    } else if c == '<' {
        Step::Token(
            plain_token(s, start, end, one_or_two(s, start, '=', TokenList::Less, TokenList::LessEql)),
        )
    } else if c == '/' {
        if next_is(s, start, '/') {
            Step::Skip
        } else {
            Step::Token(plain_token(s, start, end, TokenList::Slash))
        }
    } else if c == ' ' || c == '\r' || c == '\t' || c == '\n' {
        Step::Skip
    } else if c == '"' {
        let close = skip_class(s, start + 1, CharClass::Not('"'));
        if close < s.len() {
            Step::Token(
                SpecToken {
                    token_type: TokenList::StringLit,
                    lexeme: s.subrange(start, close + 1),
                    literal: SpecLiteral::Str(s.subrange(start + 1, close)),
                    line,
                },
            )
        } else {
            Step::Error(SpecScanError { line, message: "Unterminated string."@ })
        }
    } else if is_digit(c) {
        Step::Token(
            SpecToken {
                token_type: TokenList::Number,
                lexeme: s.subrange(start, end),
                literal: SpecLiteral::Num(s.subrange(start, end)),
                line,
            },
        )
    } else if can_start_identifier(c) {
        let kind = match keyword(s.subrange(start, end)) {
            Some(k) => k,
            None => TokenList::Identifier,
        };
        Step::Token(plain_token(s, start, end, kind))
    } else {
        Step::Error(SpecScanError { line, message: unexpected_message(c) })
    }
}

/// The end-of-input token of `s`.
pub open spec fn eof_token(s: Seq<char>) -> SpecToken {
    plain_token(s, s.len() as int, s.len() as int, TokenList::Engk)
}

/// What scanning `s` from position `pos` on yields, in order.
pub open spec fn items_from(s: Seq<char>, pos: nat) -> Seq<ScanItem>
    decreases s.len() - pos,
{
    if pos >= s.len() {
        seq![Ok(eof_token(s))]
    } else {
        proof {
            lemma_step_end_bounds(s, pos as int);
        }
        let rest = items_from(s, step_end(s, pos as int) as nat);
        match step_outcome(s, pos as int) {
            Step::Token(t) => seq![Ok(t)] + rest,
            Step::Skip => rest,
            Step::Error(e) => seq![Err(e)] + rest,
        }
    }
}

/// What scanning all of `s` yields, in order.
pub open spec fn scan(s: Seq<char>) -> Seq<ScanItem> {
    items_from(s, 0)
}

/// The tokens among `items`, in order.
pub open spec fn tokens_of(items: Seq<ScanItem>) -> Seq<SpecToken>
    decreases items.len(),
{
    if items.len() == 0 {
        seq![]
    } else {
        match items[0] {
            Ok(t) => seq![t] + tokens_of(items.drop_first()),
            Err(_) => tokens_of(items.drop_first()),
        }
    }
}

/// The errors among `items`, in order.
pub open spec fn errors_of(items: Seq<ScanItem>) -> Seq<SpecScanError>
    decreases items.len(),
{
    if items.len() == 0 {
        seq![]
    } else {
        match items[0] {
            Ok(_) => errors_of(items.drop_first()),
            Err(e) => seq![e] + errors_of(items.drop_first()),
        }
    }
}

/// All the tokens where there is no error; else all the errors.
pub open spec fn outcome(items: Seq<ScanItem>) -> Result<Seq<SpecToken>, Seq<SpecScanError>> {
    if errors_of(items).len() == 0 {
        Ok(tokens_of(items))
    } else {
        Err(errors_of(items))
    }
}

/// The result of scanning `s`: its tokens, or the errors found in it.
pub open spec fn scan_result(s: Seq<char>) -> Result<Seq<SpecToken>, Seq<SpecScanError>> {
    outcome(scan(s))
}

// ---------------------------------------------------------------------------
// Lemmas about the grammar
pub proof fn lemma_skip_class_bounds(s: Seq<char>, i: int, k: CharClass)
    requires
        0 <= i <= s.len(),
    ensures
        i <= skip_class(s, i, k) <= s.len(),
    decreases s.len() - i,
{
    if i < s.len() && in_class(k, s[i]) {
        lemma_skip_class_bounds(s, i + 1, k);
    }
}

pub proof fn lemma_step_end_bounds(s: Seq<char>, start: int)
    requires
        0 <= start < s.len(),
    ensures
        start < step_end(s, start) <= s.len(),
{
    let c = s[start];
    lemma_skip_class_bounds(s, start + 1, CharClass::Not('"'));
    lemma_skip_class_bounds(s, start + 1, CharClass::Digit);
    lemma_skip_class_bounds(s, start + 1, CharClass::IdentifierContinue);
    if next_is(s, start, '/') {
        lemma_skip_class_bounds(s, start + 2, CharClass::Not('\n'));
    }
    let i = skip_class(s, start + 1, CharClass::Digit);
    if i + 1 < s.len() {
        lemma_skip_class_bounds(s, i + 1, CharClass::Digit);
    }
}

pub proof fn lemma_newlines_le(s: Seq<char>)
    ensures
        newlines(s) <= s.len(),
    decreases s.len(),
{
    if s.len() > 0 {
        lemma_newlines_le(s.drop_last());
    }
}

/// Moving past one character moves the line on by one exactly where that
/// character is a line break.
pub proof fn lemma_line_step(s: Seq<char>, i: int)
    requires
        0 <= i < s.len(),
    ensures
        line_at(s, i + 1) == line_at(s, i) + if s[i] == '\n' {
            1nat
        } else {
            0nat
        },
        line_at(s, i) <= i + 1,
{
    assert(s.take(i + 1).drop_last() =~= s.take(i));
    lemma_newlines_le(s.take(i));
}

// ---------------------------------------------------------------------------
// Laws of the scan
proof fn lemma_tokens_of_cons(x: ScanItem, rest: Seq<ScanItem>)
    ensures
        tokens_of(seq![x] + rest) == match x {
            Ok(t) => seq![t] + tokens_of(rest),
            Err(_) => tokens_of(rest),
        },
        errors_of(seq![x] + rest) == match x {
            Ok(_) => errors_of(rest),
            Err(e) => seq![e] + errors_of(rest),
        },
{
    assert((seq![x] + rest)[0] == x);
    assert((seq![x] + rest).drop_first() =~= rest);
}

/// No scanning step yields an end-of-input token.
proof fn lemma_step_not_eof(s: Seq<char>, start: int)
    requires
        0 <= start < s.len(),
    ensures
        step_outcome(s, start) matches Step::Token(t) ==> t.token_type != TokenList::Engk,
{
}

proof fn lemma_items_end_with_eof(s: Seq<char>, pos: nat)
    ensures
        ({
            let ts = tokens_of(items_from(s, pos));
            &&& ts.len() > 0
            &&& ts.last() == eof_token(s)
            &&& forall|i: int| 0 <= i < ts.len() - 1 ==> (#[trigger] ts[i]).token_type != TokenList::Engk
        }),
    decreases s.len() - pos,
{
    if pos >= s.len() {
        assert(tokens_of(seq![Ok(eof_token(s))]) =~= seq![eof_token(s)]) by {
            lemma_tokens_of_cons(Ok(eof_token(s)), seq![]);
            assert(seq![Ok::<SpecToken, SpecScanError>(eof_token(s))] + Seq::<ScanItem>::empty() =~= seq![Ok(eof_token(s))]);
        }
    } else {
        lemma_step_end_bounds(s, pos as int);
        let next = step_end(s, pos as int) as nat;
        lemma_items_end_with_eof(s, next);
        lemma_step_not_eof(s, pos as int);
        let rest = items_from(s, next);
        match step_outcome(s, pos as int) {
            Step::Token(t) => {
                lemma_tokens_of_cons(Ok(t), rest);
                let ts = tokens_of(items_from(s, pos));
                assert(ts == seq![t] + tokens_of(rest));
                assert forall|i: int| 0 <= i < ts.len() - 1 implies (#[trigger] ts[i]).token_type
                    != TokenList::Engk by {
                    if i > 0 {
                        assert(ts[i] == tokens_of(rest)[i - 1]);
                    }
                }
            },
            Step::Skip => {},
            Step::Error(e) => {
                lemma_tokens_of_cons(Err(e), rest);
            },
        }
    }
}

/// How many positions are left from `pos` on.
pub open spec fn chars_left(s: Seq<char>, pos: nat) -> nat {
    if pos < s.len() {
        (s.len() - pos) as nat
    } else {
        0
    }
}

/// Whether item `x` is the end-of-input token.
pub open spec fn is_eof_item(x: ScanItem) -> bool {
    x matches Ok(t) && t.token_type == TokenList::Engk
}

proof fn lemma_items_shape(s: Seq<char>, pos: nat)
    ensures
        ({
            let its = items_from(s, pos);
            &&& 0 < its.len() <= chars_left(s, pos) + 1
            &&& its.last() == Ok::<SpecToken, SpecScanError>(eof_token(s))
            &&& forall|i: int| 0 <= i < its.len() - 1 ==> !is_eof_item(#[trigger] its[i])
        }),
    decreases s.len() - pos,
{
    if pos < s.len() {
        lemma_step_end_bounds(s, pos as int);
        lemma_step_not_eof(s, pos as int);
        let next = step_end(s, pos as int) as nat;
        lemma_items_shape(s, next);
        let rest = items_from(s, next);
        let its = items_from(s, pos);
        match step_outcome(s, pos as int) {
            Step::Token(tok) => {
                assert(its == seq![Ok::<SpecToken, SpecScanError>(tok)] + rest);
                assert forall|i: int| 0 <= i < its.len() - 1 implies !is_eof_item(#[trigger] its[i]) by {
                    if i > 0 {
                        assert(its[i] == rest[i - 1]);
                    }
                }
            },
            Step::Skip => {},
            Step::Error(e) => {
                assert(its == seq![Err::<SpecToken, SpecScanError>(e)] + rest);
                assert forall|i: int| 0 <= i < its.len() - 1 implies !is_eof_item(#[trigger] its[i]) by {
                    if i > 0 {
                        assert(its[i] == rest[i - 1]);
                    }
                }
            },
        }
    }
}

/// What scanning from `pos` on hands out, errors included, ends with the
/// end-of-input token of the source, which is the only end-of-input token
/// among the items; and there are at most one item per character left,
/// plus that token.
pub proof fn items_end_with_eof(s: Seq<char>, pos: nat)
    ensures
        ({
            let its = items_from(s, pos);
            &&& 0 < its.len() <= chars_left(s, pos) + 1
            &&& its.last() == Ok::<SpecToken, SpecScanError>(eof_token(s))
            &&& forall|i: int| 0 <= i < its.len() - 1 ==> !is_eof_item(#[trigger] its[i])
        }),
{
    lemma_items_shape(s, pos);
}

/// The items of a whole scan end with its end-of-input token, the only one
/// among them, and there are at most as many as the source has characters,
/// plus one.
pub proof fn scan_items_end_with_eof(s: Seq<char>)
    ensures
        ({
            let its = scan(s);
            &&& 0 < its.len() <= s.len() + 1
            &&& its.last() == Ok::<SpecToken, SpecScanError>(eof_token(s))
            &&& forall|i: int| 0 <= i < its.len() - 1 ==> !is_eof_item(#[trigger] its[i])
        }),
{
    lemma_items_shape(s, 0);
}

/// The outcome of a list of items is all the tokens among them, in order,
/// where every item is a token; else all the errors among them, in order.
pub proof fn outcome_of_items(items: Seq<ScanItem>)
    ensures
        (errors_of(items).len() == 0) == (forall|i: int| 0 <= i < items.len() ==> (#[trigger] items[i]) is Ok),
        outcome(items) == if forall|i: int| 0 <= i < items.len() ==> (#[trigger] items[i]) is Ok {
            Ok::<Seq<SpecToken>, Seq<SpecScanError>>(tokens_of(items))
        } else {
            Err::<Seq<SpecToken>, Seq<SpecScanError>>(errors_of(items))
        },
    decreases items.len(),
{
    if items.len() > 0 {
        let rest = items.drop_first();
        outcome_of_items(rest);
        assert forall|i: int| 1 <= i < items.len() implies items[i] == rest[i - 1] by {}
        if (forall|i: int| 0 <= i < rest.len() ==> (#[trigger] rest[i]) is Ok) && items[0] is Ok {
            assert forall|i: int| 0 <= i < items.len() implies (#[trigger] items[i]) is Ok by {
                if i > 0 {
                    assert(items[i] == rest[i - 1]);
                }
            }
        }
        if !(forall|i: int| 0 <= i < rest.len() ==> (#[trigger] rest[i]) is Ok) {
            let k = choose|i: int| 0 <= i < rest.len() && !((#[trigger] rest[i]) is Ok);
            assert(items[k + 1] == rest[k]);
        }
    }
}

/// The tokens of a scan end with the end-of-input token of the source,
/// which is the only end-of-input token among them.
pub proof fn scan_ends_with_eof(s: Seq<char>)
    ensures
        ({
            let ts = tokens_of(scan(s));
            &&& ts.len() > 0
            &&& ts.last() == eof_token(s)
            &&& forall|i: int| 0 <= i < ts.len() - 1 ==> (#[trigger] ts[i]).token_type != TokenList::Engk
        }),
{
    lemma_items_end_with_eof(s, 0);
}

/// Where each token of the scan from `pos` on begins, in order; the
/// end-of-input token begins at the end of `s`.
pub open spec fn token_starts(s: Seq<char>, pos: nat) -> Seq<int>
    decreases s.len() - pos,
{
    if pos >= s.len() {
        seq![s.len() as int]
    } else {
        proof {
            lemma_step_end_bounds(s, pos as int);
        }
        let rest = token_starts(s, step_end(s, pos as int) as nat);
        match step_outcome(s, pos as int) {
            Step::Token(_) => seq![pos as int] + rest,
            _ => rest,
        }
    }
}

/// The token of a step is the text the step reads, on the line where the
/// step begins.
proof fn lemma_step_token_span(s: Seq<char>, start: int)
    requires
        0 <= start < s.len(),
    ensures
        step_outcome(s, start) matches Step::Token(t) ==> t.lexeme == s.subrange(
            start,
            step_end(s, start),
        ) && t.line == line_at(s, start),
{
}

proof fn lemma_token_spans(s: Seq<char>, pos: nat)
    requires
        pos <= s.len(),
    ensures
        ({
            let ts = tokens_of(items_from(s, pos));
            let st = token_starts(s, pos);
            &&& st.len() == ts.len()
            &&& forall|i: int|
                0 <= i < ts.len() ==> {
                    &&& pos <= #[trigger] st[i]
                    &&& st[i] + ts[i].lexeme.len() <= s.len()
                    &&& ts[i].lexeme == s.subrange(st[i], st[i] + ts[i].lexeme.len())
                    &&& ts[i].line == line_at(s, st[i])
                }
            &&& forall|i: int, j: int|
                0 <= i < j < ts.len() ==> #[trigger] st[i] + ts[i].lexeme.len() <= #[trigger] st[j]
        }),
    decreases s.len() - pos,
{
    if pos >= s.len() {
        lemma_tokens_of_cons(Ok(eof_token(s)), seq![]);
        assert(seq![Ok::<SpecToken, SpecScanError>(eof_token(s))] + Seq::<ScanItem>::empty() =~= seq![Ok(eof_token(s))]);
        assert(s.subrange(s.len() as int, s.len() as int) =~= Seq::<char>::empty());
    } else {
        lemma_step_end_bounds(s, pos as int);
        lemma_step_token_span(s, pos as int);
        let end = step_end(s, pos as int);
        lemma_token_spans(s, end as nat);
        let rest = items_from(s, end as nat);
        let ts2 = tokens_of(rest);
        let st2 = token_starts(s, end as nat);
        match step_outcome(s, pos as int) {
            Step::Token(t) => {
                lemma_tokens_of_cons(Ok(t), rest);
                let ts = tokens_of(items_from(s, pos));
                let st = token_starts(s, pos);
                assert(ts == seq![t] + ts2);
                assert(st == seq![pos as int] + st2);
                assert forall|i: int| 0 <= i < ts.len() implies {
                    &&& pos <= #[trigger] st[i]
                    &&& st[i] + ts[i].lexeme.len() <= s.len()
                    &&& ts[i].lexeme == s.subrange(st[i], st[i] + ts[i].lexeme.len())
                    &&& ts[i].line == line_at(s, st[i])
                } by {
                    if i > 0 {
                        assert(ts[i] == ts2[i - 1]);
                        assert(st[i] == st2[i - 1]);
                    }
                }
                assert forall|i: int, j: int| 0 <= i < j < ts.len() implies #[trigger] st[i]
                    + ts[i].lexeme.len() <= #[trigger] st[j] by {
                    assert(st[j] == st2[j - 1]);
                    assert(end <= st2[j - 1]);
                    if i > 0 {
                        assert(ts[i] == ts2[i - 1]);
                        assert(st[i] == st2[i - 1]);
                    }
                }
            },
            Step::Skip => {},
            Step::Error(e) => {
                lemma_tokens_of_cons(Err(e), rest);
            },
        }
    }
}

/// Every token of a scan is a piece of the source: it reads the text at
/// its start, the pieces come in order without overlapping, and a token's
/// line is the line on which its piece begins.
pub proof fn scan_tokens_are_source_pieces(s: Seq<char>)
    ensures
        ({
            let ts = tokens_of(scan(s));
            let st = token_starts(s, 0);
            &&& st.len() == ts.len()
            &&& forall|i: int|
                0 <= i < ts.len() ==> {
                    &&& 0 <= #[trigger] st[i]
                    &&& st[i] + ts[i].lexeme.len() <= s.len()
                    &&& ts[i].lexeme == s.subrange(st[i], st[i] + ts[i].lexeme.len())
                    &&& ts[i].line == line_at(s, st[i])
                }
            &&& forall|i: int, j: int|
                0 <= i < j < ts.len() ==> #[trigger] st[i] + ts[i].lexeme.len() <= #[trigger] st[j]
        }),
{
    lemma_token_spans(s, 0);
}

/// Lines never go back as the position moves on.
pub proof fn lemma_line_monotone(s: Seq<char>, a: int, b: int)
    requires
        0 <= a <= b <= s.len(),
    ensures
        line_at(s, a) <= line_at(s, b),
    decreases b - a,
{
    if a < b {
        lemma_line_monotone(s, a, b - 1);
        lemma_line_step(s, b - 1);
    }
}

/// The lines of the tokens of a scan never decrease.
pub proof fn scan_lines_never_decrease(s: Seq<char>)
    ensures
        ({
            let ts = tokens_of(scan(s));
            forall|i: int, j: int| 0 <= i < j < ts.len() ==> #[trigger] ts[i].line <= #[trigger] ts[j].line
        }),
{
    lemma_token_spans(s, 0);
    let ts = tokens_of(scan(s));
    let st = token_starts(s, 0);
    assert forall|i: int, j: int| 0 <= i < j < ts.len() implies #[trigger] ts[i].line
        <= #[trigger] ts[j].line by {
        assert(0 <= st[i]);
        assert(0 <= st[j]);
        assert(st[i] + ts[i].lexeme.len() <= st[j]);
        lemma_line_monotone(s, st[i], st[j]);
    }
}

/// An ASCII letter, an ASCII digit, or an underscore.
pub open spec fn is_word_char(c: char) -> bool {
    ||| 'a' as u32 <= c as u32 && c as u32 <= 'z' as u32
    ||| 'A' as u32 <= c as u32 && c as u32 <= 'Z' as u32
    ||| '0' as u32 <= c as u32 && c as u32 <= '9' as u32
    ||| c == '_'
}

/// An ASCII letter or an underscore.
pub open spec fn is_word_start(c: char) -> bool {
    ||| 'a' as u32 <= c as u32 && c as u32 <= 'z' as u32
    ||| 'A' as u32 <= c as u32 && c as u32 <= 'Z' as u32
    ||| c == '_'
}

/// Whether `s[start..end]` is a whole word: it begins with a letter or an
/// underscore, holds only letters, digits and underscores, and is not
/// followed by one.
pub open spec fn is_whole_word(s: Seq<char>, start: int, end: int) -> bool {
    &&& 0 <= start < end <= s.len()
    &&& is_word_start(s[start])
    &&& forall|j: int| start <= j < end ==> is_word_char(#[trigger] s[j])
    &&& end == s.len() || !is_word_char(s[end])
}

/// A skip over a class stops at the first character outside the class.
pub proof fn lemma_skip_to(s: Seq<char>, i: int, end: int, k: CharClass)
    requires
        0 <= i <= end <= s.len(),
        forall|j: int| i <= j < end ==> in_class(k, #[trigger] s[j]),
        end == s.len() || !in_class(k, s[end]),
    ensures
        skip_class(s, i, k) == end,
    decreases end - i,
{
    if i < end {
        lemma_skip_to(s, i + 1, end, k);
    }
}

/// A word is read as one token: the step that begins at the first
/// character of a whole word of letters, digits and underscores reads the
/// whole word and yields one identifier or keyword token whose text is the
/// word, on the line where it begins.
pub proof fn word_is_one_token(s: Seq<char>, start: int, end: int)
    requires
        is_whole_word(s, start, end),
    ensures
        step_end(s, start) == end,
        step_outcome(s, start) matches Step::Token(t) && t.lexeme == s.subrange(start, end)
            && t.line == line_at(s, start) && t.literal == SpecLiteral::Nil && (t.token_type
            == TokenList::Identifier || keyword(t.lexeme) == Some(t.token_type)),
{
    assert forall|j: int| start + 1 <= j < end implies in_class(
        CharClass::IdentifierContinue,
        #[trigger] s[j],
    ) by {
        assert(is_word_char(s[j]));
    }
    lemma_skip_to(s, start + 1, end, CharClass::IdentifierContinue);
}

/// A source that is one word scans as that word's token and the
/// end-of-input token, nothing else.
pub proof fn one_word_scans_as_one_token(s: Seq<char>)
    requires
        is_whole_word(s, 0, s.len() as int),
    ensures
        scan(s).len() == 2,
        scan(s)[0] matches Ok(t) && t.lexeme == s && (t.token_type == TokenList::Identifier
            || keyword(s) == Some(t.token_type)),
        scan(s)[1] == Ok::<SpecToken, SpecScanError>(eof_token(s)),
{
    word_is_one_token(s, 0, s.len() as int);
    assert(s.subrange(0, s.len() as int) =~= s);
    let rest = items_from(s, s.len() as nat);
    assert(rest == seq![Ok::<SpecToken, SpecScanError>(eof_token(s))]);
}

} // verus!
