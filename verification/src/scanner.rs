//! The scanner: turns source text into tokens, collecting the errors it
//! finds as data instead of stopping at the first.

use vstd::prelude::*;

use crate::lexical::{
    errors_of, is_digit, can_continue_identifier, can_start_identifier, items_from, keyword,
    lemma_line_step, lemma_step_end_bounds, line_at, next_is, number_end,
    one_or_two as spec_one_or_two, outcome, scan, skip_class, step_end, step_outcome, tokens_of,
    unexpected_message, CharClass, ScanItem, SpecScanError, Step, items_end_with_eof, is_eof_item,
};
use crate::text::{chars_of, concat, push_char, string_of};
use crate::tokens::{views, Literal, SpecLiteral, SpecToken, Token, TokenList};

verus! {

/// Reads tokens from a source text, one at a time.
pub struct Scanner {
    source: Vec<char>,
    start: usize,
    current: usize,
    line: usize,
    emitted_eof: bool,
}

/// An error found while scanning: the line and a message.
#[derive(Debug)]
pub struct ScanError {
    pub line: usize,
    pub message: String,
}

impl View for ScanError {
    type V = SpecScanError;

    open spec fn view(&self) -> SpecScanError {
        SpecScanError { line: self.line as nat, message: self.message@ }
    }
}

/// The plain value of what the scanner hands out.
pub open spec fn item_view(r: Result<Token, ScanError>) -> ScanItem {
    match r {
        Ok(t) => Ok(t@),
        Err(e) => Err(e@),
    }
}

/// The plain values of a sequence of scan items.
pub open spec fn item_views(v: Seq<Result<Token, ScanError>>) -> Seq<ScanItem> {
    v.map_values(|r: Result<Token, ScanError>| item_view(r))
}

/// The views of a sequence of scan errors.
pub open spec fn error_views(v: Seq<ScanError>) -> Seq<SpecScanError> {
    v.map_values(|e: ScanError| e@)
}

/// Whether `r` is what `expected` says, value for value.
pub open spec fn scan_matches(
    r: Result<Vec<Token>, Vec<ScanError>>,
    expected: Result<Seq<SpecToken>, Seq<SpecScanError>>,
) -> bool {
    match r {
        Ok(v) => expected == Ok::<Seq<SpecToken>, Seq<SpecScanError>>(views(v@)),
        Err(v) => expected == Err::<Seq<SpecToken>, Seq<SpecScanError>>(error_views(v@)),
    }
}

fn is_ascii_digit(c: char) -> (r: bool)
    ensures
        r == is_digit(c),
{
    '0' as u32 <= c as u32 && c as u32 <= '9' as u32
}

/// Whether `c` can begin an identifier.
fn is_identifier_start(c: char) -> (r: bool)
    ensures
        r == can_start_identifier(c),
{
    let u = c as u32;
    ('a' as u32 <= u && u <= 'z' as u32) || ('A' as u32 <= u && u <= 'Z' as u32) || c == '_'
}

/// Whether `c` can continue an identifier.
fn is_identifier_continue(c: char) -> (r: bool)
    ensures
        r == can_continue_identifier(c),
{
    let u = c as u32;
    ('a' as u32 <= u && u <= 'z' as u32) || ('A' as u32 <= u && u <= 'Z' as u32) || ('0' as u32
        <= u && u <= '9' as u32) || c == '_'
}

/// Whether `r` is what a scanning step that yields `step` hands back.
pub open spec fn step_matches(r: Result<Option<Token>, ScanError>, step: Step) -> bool {
    match step {
        Step::Token(t) => r matches Ok(Some(tok)) && tok@ == t,
        Step::Skip => r matches Ok(None),
        Step::Error(e) => r matches Err(er) && er@ == e,
    }
}

/// Whether `chars[start..end]` spells `word`.
fn spells(chars: &Vec<char>, start: usize, end: usize, word: &str) -> (r: bool)
    requires
        start <= end <= chars@.len(),
    ensures
        r == (chars@.subrange(start as int, end as int) == word@),
{
    let n = word.unicode_len();
    if end - start != n {
        return false;
    }
    let mut i: usize = 0;
    while i < n
        invariant
            start <= end <= chars@.len(),
            end - start == n,
            n == word@.len(),
            i <= n,
            forall|j: int| 0 <= j < i ==> chars@[start + j] == word@[j],
        decreases n - i,
    {
        if chars[start + i] != word.get_char(i) {
            assert(chars@.subrange(start as int, end as int)[i as int] != word@[i as int]);
            return false;
        }
        i = i + 1;
    }
    assert(chars@.subrange(start as int, end as int) =~= word@);
    true
}

/// The kind of keyword that `chars[start..end]` spells, if it spells one.
fn keyword_type(chars: &Vec<char>, start: usize, end: usize) -> (r: Option<TokenList>)
    requires
        start <= end <= chars@.len(),
    ensures
        r == keyword(chars@.subrange(start as int, end as int)),
{
    if spells(chars, start, end, "and") {
        Some(TokenList::And)
    } else if spells(chars, start, end, "false") {
        Some(TokenList::False)
    } else if spells(chars, start, end, "true") {
        Some(TokenList::True)
    } else if spells(chars, start, end, "evolve") {
        Some(TokenList::Evolve)
    } else if spells(chars, start, end, "until") {
        Some(TokenList::Until)
    } else if spells(chars, start, end, "when") {
        Some(TokenList::When)
    } else if spells(chars, start, end, "nil") {
        Some(TokenList::Nil)
    } else if spells(chars, start, end, "or") {
        Some(TokenList::Or)
    } else if spells(chars, start, end, "print") {
        Some(TokenList::Print)
    } else if spells(chars, start, end, "return") {
        Some(TokenList::Return)
    } else if spells(chars, start, end, "var") {
        Some(TokenList::Var)
    } else if spells(chars, start, end, "law") {
        Some(TokenList::Law)
    } else if spells(chars, start, end, "entity") {
        Some(TokenList::Entity)
    } else {
        None
    }
}

impl Scanner {
    /// The source text being scanned.
    pub closed spec fn text(&self) -> Seq<char> {
        self.source@
    }

    /// The scanner's state is consistent: the line is the line of the
    /// current position, and the end-of-input token is only handed out at
    /// the end.
    pub closed spec fn wf(&self) -> bool {
        &&& self.source@.len() < usize::MAX
        &&& self.start <= self.current <= self.source@.len()
        &&& self.line == line_at(self.source@, self.current as int)
        &&& self.emitted_eof ==> self.current == self.source@.len()
    }

    /// What the scanner has still to hand out, in order.
    pub closed spec fn remaining(&self) -> Seq<ScanItem> {
        if self.emitted_eof {
            seq![]
        } else {
            items_from(self.source@, self.current as nat)
        }
    }

    /// The position of the next character to read.
    pub closed spec fn position(&self) -> nat {
        self.current as nat
    }

    /// Where the step being read began.
    pub closed spec fn step_start(&self) -> nat {
        self.start as nat
    }

    /// The line of the next character to read.
    pub closed spec fn line_number(&self) -> nat {
        self.line as nat
    }

    /// Whether the end-of-input token has been handed out.
    pub closed spec fn eof_handed_out(&self) -> bool {
        self.emitted_eof
    }

    /// A scanner at the start of `source`: position 0, line 1, no
    /// end-of-input token handed out yet, and the whole scan still to hand
    /// out.
    pub fn new(source: &str) -> (s: Self)
        requires
            source@.len() < usize::MAX,
        ensures
            s.wf(),
            s.text() == source@,
            s.position() == 0,
            s.step_start() == 0,
            s.line_number() == 1,
            !s.eof_handed_out(),
            s.remaining() == scan(source@),
    {
        let chars = chars_of(source);
        let s = Scanner { source: chars, start: 0, current: 0, line: 1, emitted_eof: false };
        assert(s.source@.take(0) =~= Seq::<char>::empty());
        s
    }

    /// Whether the whole source has been read.
    fn at_end(&self) -> (r: bool)
        ensures
            r == (self.current >= self.source@.len()),
    {
        self.current >= self.source.len()
    }

    /// Consumes the next character and gives it back.
    fn advance(&mut self) -> (c: char)
        requires
            old(self).current < old(self).source@.len(),
        ensures
            c == old(self).source@[old(self).current as int],
            final(self).current == old(self).current + 1,
            final(self).source == old(self).source,
            final(self).start == old(self).start,
            final(self).line == old(self).line,
            final(self).emitted_eof == old(self).emitted_eof,
    {
        let c = self.source[self.current];
        assert(self.current < self.source.len());
        self.current = self.current + 1;
        c
    }

    /// The next character, without consuming it; NUL at the end.
    fn peek(&self) -> (c: char)
        ensures
            c == if self.current < self.source@.len() {
                self.source@[self.current as int]
            } else {
                '\0'
            },
    {
        if self.at_end() {
            '\0'
        } else {
            self.source[self.current]
        }
    }

    /// The character after the next one; NUL where there is none.
    fn peek_next(&self) -> (c: char)
        requires
            self.current < usize::MAX,
        ensures
            c == if self.current + 1 < self.source@.len() {
                self.source@[self.current + 1]
            } else {
                '\0'
            },
    {
        if self.current + 1 >= self.source.len() {
            '\0'
        } else {
            self.source[self.current + 1]
        }
    }

    /// Consumes the next character where it is `expected`.
    fn peek_match(&mut self, expected: char) -> (r: bool)
        ensures
            r == (old(self).current < old(self).source@.len() && old(self).source@[old(self).current as int] == expected),
            final(self).current == old(self).current + if r { 1int } else { 0 },
            final(self).source == old(self).source,
            final(self).start == old(self).start,
            final(self).line == old(self).line,
            final(self).emitted_eof == old(self).emitted_eof,
    {
        if self.at_end() || self.source[self.current] != expected {
            return false;
        }
        assert(self.current < self.source.len());
        self.current = self.current + 1;
        true
    }

    /// The kind `two` where the next character is `second` (which is then
    /// consumed), else `one`.
    fn one_or_two(&mut self, second: char, one: TokenList, two: TokenList) -> (r: TokenList)
        requires
            old(self).current > 0,
        ensures
            r == spec_one_or_two(old(self).source@, old(self).current - 1, second, one, two),
            final(self).current == old(self).current + if next_is(
                old(self).source@,
                old(self).current - 1,
                second,
            ) {
                1int
            } else {
                0
            },
            final(self).source == old(self).source,
            final(self).start == old(self).start,
            final(self).line == old(self).line,
            final(self).emitted_eof == old(self).emitted_eof,
    {
        if self.peek_match(second) {
            two
        } else {
            one
        }
    }

    /// A token of kind `token_type` with no value, read from the text
    /// between the start of the step and the current position.
    fn make_token(&self, token_type: TokenList) -> (t: Token)
        requires
            self.start <= self.current <= self.source@.len(),
        ensures
            t@ == (SpecToken {
                token_type,
                lexeme: self.source@.subrange(self.start as int, self.current as int),
                literal: SpecLiteral::Nil,
                line: self.line as nat,
            }),
    {
        let lexeme = string_of(&self.source, self.start, self.current);
        Token { token_type, lexeme, literal: Literal::Nil, line: self.line }
    }

    /// A token of kind `token_type` carrying `literal`, read from the text
    /// between the start of the step and the current position.
    fn make_token_literal(&self, token_type: TokenList, literal: Literal) -> (t: Token)
        requires
            self.start <= self.current <= self.source@.len(),
        ensures
            t@ == (SpecToken {
                token_type,
                lexeme: self.source@.subrange(self.start as int, self.current as int),
                literal: literal@,
                line: self.line as nat,
            }),
    {
        let lexeme = string_of(&self.source, self.start, self.current);
        Token { token_type, lexeme, literal, line: self.line }
    }

    /// The state of a step that has consumed the first character of a
    /// token which is not a line break.
    spec fn in_step(&self) -> bool {
        &&& self.source@.len() < usize::MAX
        &&& self.start < self.current <= self.source@.len()
        &&& self.line == line_at(self.source@, self.start as int)
        &&& line_at(self.source@, self.current as int) == self.line
        &&& !self.emitted_eof
    }

    /// Reads the rest of a number literal: digits, then a fraction where
    /// a dot is followed by a digit.
    fn number(&mut self) -> (t: Token)
        requires
            old(self).in_step(),
            old(self).current == old(self).start + 1,
        ensures
            final(self).in_step(),
            final(self).current == number_end(old(self).source@, old(self).start as int),
            final(self).source == old(self).source,
            final(self).start == old(self).start,
            final(self).line == old(self).line,
            t@ == (SpecToken {
                token_type: TokenList::Number,
                lexeme: old(self).source@.subrange(old(self).start as int, final(self).current as int),
                literal: SpecLiteral::Num(old(self).source@.subrange(old(self).start as int, final(self).current as int)),
                line: old(self).line as nat,
            }),
    {
        let ghost s = self.source@;
        let ghost first = skip_class(s, self.start + 1, CharClass::Digit);
        while is_ascii_digit(self.peek())
            invariant
                self.in_step(),
                self.source == old(self).source,
                s == old(self).source@,
                self.start == old(self).start,
                self.line == old(self).line,
                skip_class(s, self.current as int, CharClass::Digit) == first,
            decreases s.len() - self.current,
        {
            proof {
                lemma_line_step(s, self.current as int);
            }
            self.advance();
        }
        if self.peek() == '.' && is_ascii_digit(self.peek_next()) {
            proof {
                lemma_line_step(s, self.current as int);
            }
            self.advance();
            let ghost second = skip_class(s, self.current as int, CharClass::Digit);
            while is_ascii_digit(self.peek())
                invariant
                    self.in_step(),
                    self.source == old(self).source,
                    s == old(self).source@,
                    self.start == old(self).start,
                    self.line == old(self).line,
                    skip_class(s, self.current as int, CharClass::Digit) == second,
                decreases s.len() - self.current,
            {
                proof {
                    lemma_line_step(s, self.current as int);
                }
                self.advance();
            }
        }
        let text = string_of(&self.source, self.start, self.current);
        self.make_token_literal(TokenList::Number, Literal::Num(text))
    }

    /// Reads the rest of a string literal, up to and with the closing
    /// quote; an error where the source ends first.
    fn string(&mut self) -> (r: Result<Token, ScanError>)
        requires
            old(self).in_step(),
            old(self).current == old(self).start + 1,
            old(self).source@[old(self).start as int] == '"',
        ensures
            final(self).current == step_end(old(self).source@, old(self).start as int),
            final(self).line == line_at(old(self).source@, final(self).current as int),
            final(self).source == old(self).source,
            final(self).start == old(self).start,
            final(self).emitted_eof == old(self).emitted_eof,
            final(self).start <= final(self).current <= final(self).source@.len(),
            match step_outcome(old(self).source@, old(self).start as int) {
                Step::Token(tok) => r matches Ok(t) && t@ == tok,
                Step::Error(e) => r matches Err(er) && er@ == e,
                Step::Skip => false,
            },
    {
        let ghost s = self.source@;
        let ghost close = skip_class(s, self.start + 1, CharClass::Not('"'));
        let start_line = self.line;
        while self.peek() != '"' && !self.at_end()
            invariant
                self.source@.len() < usize::MAX,
                self.start < self.current <= self.source@.len(),
                self.source == old(self).source,
                s == old(self).source@,
                self.start == old(self).start,
                self.emitted_eof == old(self).emitted_eof,
                self.line == line_at(s, self.current as int),
                skip_class(s, self.current as int, CharClass::Not('"')) == close,
            decreases s.len() - self.current,
        {
            proof {
                lemma_line_step(s, self.current as int);
            }
            if self.peek() == '\n' {
                self.line = self.line + 1;
            }
            self.advance();
        }
        if self.at_end() {
            return Err(
                ScanError { line: start_line, message: String::from_str("Unterminated string.") },
            );
        }
        proof {
            lemma_line_step(s, self.current as int);
        }
        self.advance();
        let value = string_of(&self.source, self.start + 1, self.current - 1);
        let lexeme = string_of(&self.source, self.start, self.current);
        Ok(Token { token_type: TokenList::StringLit, lexeme, literal: Literal::Str(value), line: start_line })
    }

    /// Reads the rest of an identifier, then tells a keyword from a name by
    /// the whole of its text.
    fn identifier(&mut self) -> (t: Token)
        requires
            old(self).in_step(),
            old(self).current == old(self).start + 1,
        ensures
            final(self).in_step(),
            final(self).current == skip_class(old(self).source@, old(self).start + 1, CharClass::IdentifierContinue),
            final(self).source == old(self).source,
            final(self).start == old(self).start,
            final(self).line == old(self).line,
            t@ == (SpecToken {
                token_type: match keyword(old(self).source@.subrange(old(self).start as int, final(self).current as int)) {
                    Some(k) => k,
                    None => TokenList::Identifier,
                },
                lexeme: old(self).source@.subrange(old(self).start as int, final(self).current as int),
                literal: SpecLiteral::Nil,
                line: old(self).line as nat,
            }),
    {
        let ghost s = self.source@;
        let ghost end = skip_class(s, self.start + 1, CharClass::IdentifierContinue);
        while is_identifier_continue(self.peek())
            invariant
                self.in_step(),
                self.source == old(self).source,
                s == old(self).source@,
                self.start == old(self).start,
                self.line == old(self).line,
                skip_class(s, self.current as int, CharClass::IdentifierContinue) == end,
            decreases s.len() - self.current,
        {
            proof {
                lemma_line_step(s, self.current as int);
            }
            self.advance();
        }
        let token_type = keyword_type(&self.source, self.start, self.current).unwrap_or(
            TokenList::Identifier,
        );
        self.make_token(token_type)
    }

    /// Reads one step from the current position: a token, nothing (white
    /// space or a comment), or an error.
    fn scan_token(&mut self) -> (r: Result<Option<Token>, ScanError>)
        requires
            old(self).wf(),
            old(self).start == old(self).current,
            old(self).current < old(self).source@.len(),
        ensures
            final(self).wf(),
            final(self).source == old(self).source,
            final(self).start == old(self).start,
            final(self).current == step_end(old(self).source@, old(self).start as int),
            final(self).emitted_eof == old(self).emitted_eof,
            step_matches(r, step_outcome(old(self).source@, old(self).start as int)),
    {
        let ghost s = self.source@;
        let ghost start = self.start as int;
        proof {
            lemma_line_step(s, start);
            lemma_step_end_bounds(s, start);
            if start + 1 < s.len() {
                lemma_line_step(s, start + 1);
            }
        }
        let c = self.advance();
        let token = match c {
            '(' => Some(self.make_token(TokenList::LeftParen)),
            ')' => Some(self.make_token(TokenList::RightParen)),
            '{' => Some(self.make_token(TokenList::LeftBrace)),
            '}' => Some(self.make_token(TokenList::RightBrace)),
            ',' => Some(self.make_token(TokenList::Comma)),
            '.' => Some(self.make_token(TokenList::Dot)),
            '+' => Some(self.make_token(TokenList::Plus)),
            '*' => Some(self.make_token(TokenList::Star)),
            '%' => Some(self.make_token(TokenList::Modulo)),
            ';' => Some(self.make_token(TokenList::Semicolon)),
            ':' => Some(self.make_token(TokenList::Colon)),
            '-' => {
                let kind = self.one_or_two('>', TokenList::Minus, TokenList::Arrow);
                Some(self.make_token(kind))
            },
            '!' => {
                let kind = self.one_or_two('=', TokenList::Not, TokenList::NotEqual);
                Some(self.make_token(kind))
            },
            '=' => {
                let kind = self.one_or_two('=', TokenList::Assign, TokenList::EqualTo);
                Some(self.make_token(kind))
            },
            '>' => {
                let kind = self.one_or_two('=', TokenList::Greater, TokenList::GreaterEql);
                Some(self.make_token(kind))
            },
            '<' => {
                let kind = self.one_or_two('=', TokenList::Less, TokenList::LessEql);
                Some(self.make_token(kind))
            },
            '/' => {
                if self.peek_match('/') {
                    let ghost end = skip_class(s, self.current as int, CharClass::Not('\n'));
                    while self.peek() != '\n' && !self.at_end()
                        invariant
                            self.source == old(self).source,
                            s == old(self).source@,
                            self.start == old(self).start,
                            self.start + 2 <= self.current <= s.len(),
                            s.len() < usize::MAX,
                            self.line == line_at(s, self.start as int),
                            line_at(s, self.current as int) == self.line,
                            !self.emitted_eof,
                            skip_class(s, self.current as int, CharClass::Not('\n')) == end,
                        decreases s.len() - self.current,
                    {
                        proof {
                            lemma_line_step(s, self.current as int);
                        }
                        self.advance();
                    }
                    None
                } else {
                    Some(self.make_token(TokenList::Slash))
                }
            },
            ' ' | '\r' | '\t' => None,
            '\n' => {
                self.line = self.line + 1;
                None
            },
            '"' => {
                let token = self.string()?;
                Some(token)
            },
            c if is_ascii_digit(c) => Some(self.number()),
            c if is_identifier_start(c) => Some(self.identifier()),
            other => {
                let mut message = String::from_str("Unexpected character '");
                push_char(&mut message, other);
                let message = concat(message, "'");
                assert(message@ =~= unexpected_message(other));
                return Err(ScanError { line: self.line, message });
            },
        };
        Ok(token)
    }

    /// Hands out the next token or error; after the end-of-input token,
    /// nothing.
    pub fn next(&mut self) -> (r: Option<Result<Token, ScanError>>)
        requires
            old(self).wf(),
        ensures
            final(self).wf(),
            final(self).text() == old(self).text(),
            old(self).remaining().len() == 0 ==> r is None && *final(self) == *old(self),
            old(self).remaining().len() > 0 ==> (r matches Some(item) && item_view(item) == old(
                self,
            ).remaining()[0] && final(self).remaining() == old(self).remaining().drop_first()),
            old(self).eof_handed_out() == (old(self).remaining().len() == 0),
            r matches Some(Ok(t)) ==> (t.token_type == TokenList::Engk ==> final(self).remaining().len() == 0
                && final(self).eof_handed_out()),
    {
        proof {
            if !self.emitted_eof {
                items_end_with_eof(self.source@, self.current as nat);
            }
        }
        loop
            invariant
                self.wf(),
                self.source == old(self).source,
                self.remaining() == old(self).remaining(),
                old(self).eof_handed_out() == (old(self).remaining().len() == 0),
                old(self).remaining().len() == 0 ==> *self == *old(self),
                !old(self).eof_handed_out() ==> ({
                    let its = old(self).remaining();
                    &&& its.len() > 0
                    &&& forall|i: int| 0 <= i < its.len() - 1 ==> !is_eof_item(#[trigger] its[i])
                }),
            decreases self.source@.len() - self.current,
        {
            if self.at_end() {
                if !self.emitted_eof {
                    self.emitted_eof = true;
                    self.start = self.current;
                    let t = self.make_token(TokenList::Engk);
                    assert(old(self).remaining() == seq![Ok::<SpecToken, SpecScanError>(t@)]);
                    assert(self.remaining() =~= old(self).remaining().drop_first());
                    return Some(Ok(t));
                }
                return None;
            }
            self.start = self.current;
            let ghost s = self.source@;
            let ghost before = self.current;
            proof {
                lemma_step_end_bounds(s, before as int);
            }
            match self.scan_token() {
                Ok(Some(token)) => {
                    assert(self.remaining() =~= old(self).remaining().drop_first());
                    proof {
                        if token.token_type == TokenList::Engk {
                            assert(is_eof_item(old(self).remaining()[0]));
                        }
                    }
                    return Some(Ok(token));
                },
                Ok(None) => {},
                Err(e) => {
                    assert(self.remaining() =~= old(self).remaining().drop_first());
                    return Some(Err(e));
                },
            }
        }
    }

    /// Everything still to be handed out, in order: what calling
    /// [`Scanner::next`] until it gives nothing collects.
    pub fn collect(self) -> (v: Vec<Result<Token, ScanError>>)
        requires
            self.wf(),
        ensures
            item_views(v@) == self.remaining(),
    {
        let ghost all = self.remaining();
        let mut me = self;
        let mut items: Vec<Result<Token, ScanError>> = Vec::new();
        loop
            invariant
                me.wf(),
                all == item_views(items@) + me.remaining(),
            ensures
                me.remaining().len() == 0,
                all == item_views(items@) + me.remaining(),
            decreases me.remaining().len(),
        {
            let ghost rest = me.remaining();
            let ghost before = items@;
            match me.next() {
                Some(item) => {
                    items.push(item);
                    assert(item_views(items@) =~= item_views(before).push(rest[0]));
                    assert(item_views(items@) + me.remaining() =~= item_views(before) + rest);
                },
                None => {
                    break;
                },
            }
        }
        assert(item_views(items@) + me.remaining() =~= item_views(items@));
        items
    }

    /// Scans the whole of the rest of the source: all its tokens where no
    /// error is found, else all the errors, in order.
    pub fn scan_tokens(self) -> (r: Result<Vec<Token>, Vec<ScanError>>)
        requires
            self.wf(),
        ensures
            scan_matches(r, outcome(self.remaining())),
    {
        let ghost all = self.remaining();
        let mut me = self;
        let mut tokens: Vec<Token> = Vec::new();
        let mut errors: Vec<ScanError> = Vec::new();
        loop
            invariant
                me.wf(),
                tokens_of(all) == views(tokens@) + tokens_of(me.remaining()),
                errors_of(all) == error_views(errors@) + errors_of(me.remaining()),
            ensures
                me.remaining().len() == 0,
                tokens_of(all) == views(tokens@) + tokens_of(me.remaining()),
                errors_of(all) == error_views(errors@) + errors_of(me.remaining()),
            decreases me.remaining().len(),
        {
            let ghost rest = me.remaining();
            match me.next() {
                Some(Ok(token)) => {
                    let ghost before = tokens@;
                    tokens.push(token);
                    assert(views(tokens@) =~= views(before).push(rest[0]->Ok_0));
                    assert(rest.drop_first() == me.remaining());
                    assert(views(tokens@) + tokens_of(me.remaining()) =~= views(before) + (seq![rest[0]->Ok_0] + tokens_of(rest.drop_first())));
                },
                Some(Err(e)) => {
                    let ghost before = errors@;
                    errors.push(e);
                    assert(error_views(errors@) =~= error_views(before).push(rest[0]->Err_0));
                    assert(error_views(errors@) + errors_of(me.remaining()) =~= error_views(before) + (seq![rest[0]->Err_0] + errors_of(rest.drop_first())));
                },
                None => {
                    break;
                },
            }
        }
        assert(views(tokens@) + tokens_of(me.remaining()) =~= views(tokens@));
        assert(error_views(errors@) + errors_of(me.remaining()) =~= error_views(errors@));
        if errors.len() == 0 {
            Ok(tokens)
        } else {
            Err(errors)
        }
    }
}

} // verus!
