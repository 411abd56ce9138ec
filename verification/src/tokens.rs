//! The alphabet of token kinds, and the tokens the scanner hands out.

use vstd::prelude::*;

use crate::text::concat;

verus! {

/// The kinds of token the scanner recognises.
#[derive(Debug, Clone, Copy, PartialEq, Eq, Structural)]
pub enum TokenList {
    // single-character tokens
    LeftParen,
    RightParen,
    LeftBrace,
    RightBrace,
    Comma,
    Dot,
    Plus,
    Minus,
    Star,
    Slash,
    Modulo,
    Semicolon,
    Colon,
    // one or two characters
    Arrow,
    Not,
    NotEqual,
    Assign,
    EqualTo,
    Greater,
    GreaterEql,
    Less,
    LessEql,
    // literals
    Identifier,
    StringLit,
    Number,
    // keywords
    And,
    False,
    True,
    Evolve,
    Until,
    When,
    Nil,
    Or,
    Print,
    Return,
    Var,
    Law,
    Entity,
    /// End of input.
    Engk,
}

impl TokenList {
    /// The name of the kind, as it is spelled in the enum.
    pub open spec fn name_text(self) -> Seq<char> {
        match self {
            TokenList::LeftParen => "LeftParen"@,
            TokenList::RightParen => "RightParen"@,
            TokenList::LeftBrace => "LeftBrace"@,
            TokenList::RightBrace => "RightBrace"@,
            TokenList::Comma => "Comma"@,
            TokenList::Dot => "Dot"@,
            TokenList::Plus => "Plus"@,
            TokenList::Minus => "Minus"@,
            TokenList::Star => "Star"@,
            TokenList::Slash => "Slash"@,
            TokenList::Modulo => "Modulo"@,
            TokenList::Semicolon => "Semicolon"@,
            TokenList::Colon => "Colon"@,
            TokenList::Arrow => "Arrow"@,
            TokenList::Not => "Not"@,
            TokenList::NotEqual => "NotEqual"@,
            TokenList::Assign => "Assign"@,
            TokenList::EqualTo => "EqualTo"@,
            TokenList::Greater => "Greater"@,
            TokenList::GreaterEql => "GreaterEql"@,
            TokenList::Less => "Less"@,
            TokenList::LessEql => "LessEql"@,
            TokenList::Identifier => "Identifier"@,
            TokenList::StringLit => "StringLit"@,
            TokenList::Number => "Number"@,
            TokenList::And => "And"@,
            TokenList::False => "False"@,
            TokenList::True => "True"@,
            TokenList::Evolve => "Evolve"@,
            TokenList::Until => "Until"@,
            TokenList::When => "When"@,
            TokenList::Nil => "Nil"@,
            TokenList::Or => "Or"@,
            TokenList::Print => "Print"@,
            TokenList::Return => "Return"@,
            TokenList::Var => "Var"@,
            TokenList::Law => "Law"@,
            TokenList::Entity => "Entity"@,
            TokenList::Engk => "Engk"@,
        }
    }

    /// The name of the kind, as it is spelled in the enum.
    pub fn name(&self) -> (r: &'static str)
        ensures
            r@ == self.name_text(),
    {
        match self {
            TokenList::LeftParen => "LeftParen",
            TokenList::RightParen => "RightParen",
            TokenList::LeftBrace => "LeftBrace",
            TokenList::RightBrace => "RightBrace",
            TokenList::Comma => "Comma",
            TokenList::Dot => "Dot",
            TokenList::Plus => "Plus",
            TokenList::Minus => "Minus",
            TokenList::Star => "Star",
            TokenList::Slash => "Slash",
            TokenList::Modulo => "Modulo",
            TokenList::Semicolon => "Semicolon",
            TokenList::Colon => "Colon",
            TokenList::Arrow => "Arrow",
            TokenList::Not => "Not",
            TokenList::NotEqual => "NotEqual",
            TokenList::Assign => "Assign",
            TokenList::EqualTo => "EqualTo",
            TokenList::Greater => "Greater",
            TokenList::GreaterEql => "GreaterEql",
            TokenList::Less => "Less",
            TokenList::LessEql => "LessEql",
            TokenList::Identifier => "Identifier",
            TokenList::StringLit => "StringLit",
            TokenList::Number => "Number",
            TokenList::And => "And",
            TokenList::False => "False",
            TokenList::True => "True",
            TokenList::Evolve => "Evolve",
            TokenList::Until => "Until",
            TokenList::When => "When",
            TokenList::Nil => "Nil",
            TokenList::Or => "Or",
            TokenList::Print => "Print",
            TokenList::Return => "Return",
            TokenList::Var => "Var",
            TokenList::Law => "Law",
            TokenList::Entity => "Entity",
            TokenList::Engk => "Engk",
        }
    }
}

/// The value a token carries: the text of a number literal, the contents of
/// a string literal, or nothing.
#[derive(Debug)]
pub enum Literal {
    /// A number literal, kept as the digits it was written with. Its value
    /// as a 64-bit float is left to the caller: see `Expr::print_with`.
    Num(String),
    /// The characters between the quotes of a string literal.
    Str(String),
    /// No value.
    Nil,
}

/// What a [`Literal`] holds, as plain sequences of characters.
pub enum SpecLiteral {
    Num(Seq<char>),
    Str(Seq<char>),
    Nil,
}

impl View for Literal {
    type V = SpecLiteral;

    open spec fn view(&self) -> SpecLiteral {
        match self {
            Literal::Num(s) => SpecLiteral::Num(s@),
            Literal::Str(s) => SpecLiteral::Str(s@),
            Literal::Nil => SpecLiteral::Nil,
        }
    }
}

impl Clone for Literal {
    fn clone(&self) -> (r: Self)
        ensures
            r@ == self@,
    {
        match self {
            Literal::Num(s) => Literal::Num(s.clone()),
            Literal::Str(s) => Literal::Str(s.clone()),
            Literal::Nil => Literal::Nil,
        }
    }
}

/// A token: its kind, the source text it was read from, its value and the
/// line on which it starts.
#[derive(Debug)]
pub struct Token {
    pub token_type: TokenList,
    pub lexeme: String,
    pub literal: Literal,
    pub line: usize,
}

/// What a [`Token`] holds, as plain values.
pub struct SpecToken {
    pub token_type: TokenList,
    pub lexeme: Seq<char>,
    pub literal: SpecLiteral,
    pub line: nat,
}

impl View for Token {
    type V = SpecToken;

    open spec fn view(&self) -> SpecToken {
        SpecToken {
            token_type: self.token_type,
            lexeme: self.lexeme@,
            literal: self.literal@,
            line: self.line as nat,
        }
    }
}

impl Clone for Token {
    fn clone(&self) -> (r: Self)
        ensures
            r@ == self@,
    {
        Token {
            token_type: self.token_type,
            lexeme: self.lexeme.clone(),
            literal: self.literal.clone(),
            line: self.line,
        }
    }
}

/// The text that [`Token::to_string`] gives for a token of kind `kind`.
pub open spec fn token_text(kind: TokenList) -> Seq<char> {
    "Token (type="@ + kind.name_text() + ")"@
}

impl Token {
    /// Describes the token by its kind: `Token (type=<kind>)`.
    pub fn to_string(&self) -> (r: String)
        ensures
            r@ == token_text(self.token_type),
    {
        let r = concat(String::from_str("Token (type="), self.token_type.name());
        concat(r, ")")
    }
}

/// The kind whose variant is spelled `text`, if there is one, looked up by
/// the length of the spelling and then the spelling.
pub open spec fn kind_named(text: Seq<char>) -> Option<TokenList> {
    if text.len() == 2 {
        if text == "Or"@ {
            Some(TokenList::Or)
        } else {
            None
        }
    } else if text.len() == 3 {
        if text == "Dot"@ {
            Some(TokenList::Dot)
        } else if text == "Not"@ {
            Some(TokenList::Not)
        } else if text == "And"@ {
            Some(TokenList::And)
        } else if text == "Nil"@ {
            Some(TokenList::Nil)
        } else if text == "Var"@ {
            Some(TokenList::Var)
        } else if text == "Law"@ {
            Some(TokenList::Law)
        } else {
            None
        }
    } else if text.len() == 4 {
        if text == "Plus"@ {
            Some(TokenList::Plus)
        } else if text == "Star"@ {
            Some(TokenList::Star)
        } else if text == "Less"@ {
            Some(TokenList::Less)
        } else if text == "True"@ {
            Some(TokenList::True)
        } else if text == "When"@ {
            Some(TokenList::When)
        } else if text == "Engk"@ {
            Some(TokenList::Engk)
        } else {
            None
        }
    } else if text.len() == 5 {
        if text == "Comma"@ {
            Some(TokenList::Comma)
        } else if text == "Minus"@ {
            Some(TokenList::Minus)
        } else if text == "Slash"@ {
            Some(TokenList::Slash)
        } else if text == "Colon"@ {
            Some(TokenList::Colon)
        } else if text == "Arrow"@ {
            Some(TokenList::Arrow)
        } else if text == "False"@ {
            Some(TokenList::False)
        } else if text == "Until"@ {
            Some(TokenList::Until)
        } else if text == "Print"@ {
            Some(TokenList::Print)
        } else {
            None
        }
    } else if text.len() == 6 {
        if text == "Modulo"@ {
            Some(TokenList::Modulo)
        } else if text == "Assign"@ {
            Some(TokenList::Assign)
        } else if text == "Number"@ {
            Some(TokenList::Number)
        } else if text == "Evolve"@ {
            Some(TokenList::Evolve)
        } else if text == "Return"@ {
            Some(TokenList::Return)
        } else if text == "Entity"@ {
            Some(TokenList::Entity)
        } else {
            None
        }
    } else if text.len() == 7 {
        if text == "EqualTo"@ {
            Some(TokenList::EqualTo)
        } else if text == "Greater"@ {
            Some(TokenList::Greater)
        } else if text == "LessEql"@ {
            Some(TokenList::LessEql)
        } else {
            None
        }
    } else if text.len() == 8 {
        if text == "NotEqual"@ {
            Some(TokenList::NotEqual)
        } else {
            None
        }
    } else if text.len() == 9 {
        if text == "LeftParen"@ {
            Some(TokenList::LeftParen)
        } else if text == "LeftBrace"@ {
            Some(TokenList::LeftBrace)
        } else if text == "Semicolon"@ {
            Some(TokenList::Semicolon)
        } else if text == "StringLit"@ {
            Some(TokenList::StringLit)
        } else {
            None
        }
    } else if text.len() == 10 {
        if text == "RightParen"@ {
            Some(TokenList::RightParen)
        } else if text == "RightBrace"@ {
            Some(TokenList::RightBrace)
        } else if text == "GreaterEql"@ {
            Some(TokenList::GreaterEql)
        } else if text == "Identifier"@ {
            Some(TokenList::Identifier)
        } else {
            None
        }
    } else {
        None
    }
}

/// The description of a token names its kind: the name of every kind is
/// the spelling of its own variant, so reading the kind back from the name
/// gives the kind.
pub proof fn name_spells_the_kind(k: TokenList)
    ensures
        kind_named(k.name_text()) == Some(k),
{
    match k {
        TokenList::LeftParen => {
            reveal_strlit("LeftParen");
        },
        TokenList::RightParen => {
            reveal_strlit("RightParen");
        },
        TokenList::LeftBrace => {
            reveal_strlit("LeftBrace");
            reveal_strlit("LeftParen");
            assert("LeftParen"@[4] != "LeftBrace"@[4]);
        },
        TokenList::RightBrace => {
            reveal_strlit("RightBrace");
            reveal_strlit("RightParen");
            assert("RightParen"@[5] != "RightBrace"@[5]);
        },
        TokenList::Comma => {
            reveal_strlit("Comma");
        },
        TokenList::Dot => {
            reveal_strlit("Dot");
        },
        TokenList::Plus => {
            reveal_strlit("Plus");
        },
        TokenList::Minus => {
            reveal_strlit("Minus");
            reveal_strlit("Comma");
            assert("Comma"@[0] != "Minus"@[0]);
        },
        TokenList::Star => {
            reveal_strlit("Star");
            reveal_strlit("Plus");
            assert("Plus"@[0] != "Star"@[0]);
        },
        TokenList::Slash => {
            reveal_strlit("Slash");
            reveal_strlit("Comma");
            assert("Comma"@[0] != "Slash"@[0]);
            reveal_strlit("Minus");
            assert("Minus"@[0] != "Slash"@[0]);
        },
        TokenList::Modulo => {
            reveal_strlit("Modulo");
        },
        TokenList::Semicolon => {
            reveal_strlit("Semicolon");
            reveal_strlit("LeftParen");
            assert("LeftParen"@[0] != "Semicolon"@[0]);
            reveal_strlit("LeftBrace");
            assert("LeftBrace"@[0] != "Semicolon"@[0]);
        },
        TokenList::Colon => {
            reveal_strlit("Colon");
            reveal_strlit("Comma");
            assert("Comma"@[2] != "Colon"@[2]);
            reveal_strlit("Minus");
            assert("Minus"@[0] != "Colon"@[0]);
            reveal_strlit("Slash");
            assert("Slash"@[0] != "Colon"@[0]);
        },
        TokenList::Arrow => {
            reveal_strlit("Arrow");
            reveal_strlit("Comma");
            assert("Comma"@[0] != "Arrow"@[0]);
            reveal_strlit("Minus");
            assert("Minus"@[0] != "Arrow"@[0]);
            reveal_strlit("Slash");
            assert("Slash"@[0] != "Arrow"@[0]);
            reveal_strlit("Colon");
            assert("Colon"@[0] != "Arrow"@[0]);
        },
        TokenList::Not => {
            reveal_strlit("Not");
            reveal_strlit("Dot");
            assert("Dot"@[0] != "Not"@[0]);
        },
        TokenList::NotEqual => {
            reveal_strlit("NotEqual");
        },
        TokenList::Assign => {
            reveal_strlit("Assign");
            reveal_strlit("Modulo");
            assert("Modulo"@[0] != "Assign"@[0]);
        },
        TokenList::EqualTo => {
            reveal_strlit("EqualTo");
        },
        TokenList::Greater => {
            reveal_strlit("Greater");
            reveal_strlit("EqualTo");
            assert("EqualTo"@[0] != "Greater"@[0]);
        },
        TokenList::GreaterEql => {
            reveal_strlit("GreaterEql");
            reveal_strlit("RightParen");
            assert("RightParen"@[0] != "GreaterEql"@[0]);
            reveal_strlit("RightBrace");
            assert("RightBrace"@[0] != "GreaterEql"@[0]);
        },
        TokenList::Less => {
            reveal_strlit("Less");
            reveal_strlit("Plus");
            assert("Plus"@[0] != "Less"@[0]);
            reveal_strlit("Star");
            assert("Star"@[0] != "Less"@[0]);
        },
        TokenList::LessEql => {
            reveal_strlit("LessEql");
            reveal_strlit("EqualTo");
            assert("EqualTo"@[0] != "LessEql"@[0]);
            reveal_strlit("Greater");
            assert("Greater"@[0] != "LessEql"@[0]);
        },
        TokenList::Identifier => {
            reveal_strlit("Identifier");
            reveal_strlit("RightParen");
            assert("RightParen"@[0] != "Identifier"@[0]);
            reveal_strlit("RightBrace");
            assert("RightBrace"@[0] != "Identifier"@[0]);
            reveal_strlit("GreaterEql");
            assert("GreaterEql"@[0] != "Identifier"@[0]);
        },
        TokenList::StringLit => {
            reveal_strlit("StringLit");
            reveal_strlit("LeftParen");
            assert("LeftParen"@[0] != "StringLit"@[0]);
            reveal_strlit("LeftBrace");
            assert("LeftBrace"@[0] != "StringLit"@[0]);
            reveal_strlit("Semicolon");
            assert("Semicolon"@[1] != "StringLit"@[1]);
        },
        TokenList::Number => {
            reveal_strlit("Number");
            reveal_strlit("Modulo");
            assert("Modulo"@[0] != "Number"@[0]);
            reveal_strlit("Assign");
            assert("Assign"@[0] != "Number"@[0]);
        },
        TokenList::And => {
            reveal_strlit("And");
            reveal_strlit("Dot");
            assert("Dot"@[0] != "And"@[0]);
            reveal_strlit("Not");
            assert("Not"@[0] != "And"@[0]);
        },
        TokenList::False => {
            reveal_strlit("False");
            reveal_strlit("Comma");
            assert("Comma"@[0] != "False"@[0]);
            reveal_strlit("Minus");
            assert("Minus"@[0] != "False"@[0]);
            reveal_strlit("Slash");
            assert("Slash"@[0] != "False"@[0]);
            reveal_strlit("Colon");
            assert("Colon"@[0] != "False"@[0]);
            reveal_strlit("Arrow");
            assert("Arrow"@[0] != "False"@[0]);
        },
        TokenList::True => {
            reveal_strlit("True");
            reveal_strlit("Plus");
            assert("Plus"@[0] != "True"@[0]);
            reveal_strlit("Star");
            assert("Star"@[0] != "True"@[0]);
            reveal_strlit("Less");
            assert("Less"@[0] != "True"@[0]);
        },
        TokenList::Evolve => {
            reveal_strlit("Evolve");
            reveal_strlit("Modulo");
            assert("Modulo"@[0] != "Evolve"@[0]);
            reveal_strlit("Assign");
            assert("Assign"@[0] != "Evolve"@[0]);
            reveal_strlit("Number");
            assert("Number"@[0] != "Evolve"@[0]);
        },
        TokenList::Until => {
            reveal_strlit("Until");
            reveal_strlit("Comma");
            assert("Comma"@[0] != "Until"@[0]);
            reveal_strlit("Minus");
            assert("Minus"@[0] != "Until"@[0]);
            reveal_strlit("Slash");
            assert("Slash"@[0] != "Until"@[0]);
            reveal_strlit("Colon");
            assert("Colon"@[0] != "Until"@[0]);
            reveal_strlit("Arrow");
            assert("Arrow"@[0] != "Until"@[0]);
            reveal_strlit("False");
            assert("False"@[0] != "Until"@[0]);
        },
        TokenList::When => {
            reveal_strlit("When");
            reveal_strlit("Plus");
            assert("Plus"@[0] != "When"@[0]);
            reveal_strlit("Star");
            assert("Star"@[0] != "When"@[0]);
            reveal_strlit("Less");
            assert("Less"@[0] != "When"@[0]);
            reveal_strlit("True");
            assert("True"@[0] != "When"@[0]);
        },
        TokenList::Nil => {
            reveal_strlit("Nil");
            reveal_strlit("Dot");
            assert("Dot"@[0] != "Nil"@[0]);
            reveal_strlit("Not");
            assert("Not"@[1] != "Nil"@[1]);
            reveal_strlit("And");
            assert("And"@[0] != "Nil"@[0]);
        },
        TokenList::Or => {
            reveal_strlit("Or");
        },
        TokenList::Print => {
            reveal_strlit("Print");
            reveal_strlit("Comma");
            assert("Comma"@[0] != "Print"@[0]);
            reveal_strlit("Minus");
            assert("Minus"@[0] != "Print"@[0]);
            reveal_strlit("Slash");
            assert("Slash"@[0] != "Print"@[0]);
            reveal_strlit("Colon");
            assert("Colon"@[0] != "Print"@[0]);
            reveal_strlit("Arrow");
            assert("Arrow"@[0] != "Print"@[0]);
            reveal_strlit("False");
            assert("False"@[0] != "Print"@[0]);
            reveal_strlit("Until");
            assert("Until"@[0] != "Print"@[0]);
        },
        TokenList::Return => {
            reveal_strlit("Return");
            reveal_strlit("Modulo");
            assert("Modulo"@[0] != "Return"@[0]);
            reveal_strlit("Assign");
            assert("Assign"@[0] != "Return"@[0]);
            reveal_strlit("Number");
            assert("Number"@[0] != "Return"@[0]);
            reveal_strlit("Evolve");
            assert("Evolve"@[0] != "Return"@[0]);
        },
        TokenList::Var => {
            reveal_strlit("Var");
            reveal_strlit("Dot");
            assert("Dot"@[0] != "Var"@[0]);
            reveal_strlit("Not");
            assert("Not"@[0] != "Var"@[0]);
            reveal_strlit("And");
            assert("And"@[0] != "Var"@[0]);
            reveal_strlit("Nil");
            assert("Nil"@[0] != "Var"@[0]);
        },
        TokenList::Law => {
            reveal_strlit("Law");
            reveal_strlit("Dot");
            assert("Dot"@[0] != "Law"@[0]);
            reveal_strlit("Not");
            assert("Not"@[0] != "Law"@[0]);
            reveal_strlit("And");
            assert("And"@[0] != "Law"@[0]);
            reveal_strlit("Nil");
            assert("Nil"@[0] != "Law"@[0]);
            reveal_strlit("Var");
            assert("Var"@[0] != "Law"@[0]);
        },
        TokenList::Entity => {
            reveal_strlit("Entity");
            reveal_strlit("Modulo");
            assert("Modulo"@[0] != "Entity"@[0]);
            reveal_strlit("Assign");
            assert("Assign"@[0] != "Entity"@[0]);
            reveal_strlit("Number");
            assert("Number"@[0] != "Entity"@[0]);
            reveal_strlit("Evolve");
            assert("Evolve"@[1] != "Entity"@[1]);
            reveal_strlit("Return");
            assert("Return"@[0] != "Entity"@[0]);
        },
        TokenList::Engk => {
            reveal_strlit("Engk");
            reveal_strlit("Plus");
            assert("Plus"@[0] != "Engk"@[0]);
            reveal_strlit("Star");
            assert("Star"@[0] != "Engk"@[0]);
            reveal_strlit("Less");
            assert("Less"@[0] != "Engk"@[0]);
            reveal_strlit("True");
            assert("True"@[0] != "Engk"@[0]);
            reveal_strlit("When");
            assert("When"@[0] != "Engk"@[0]);
        },
    }
}

/// Two tokens of different kinds are never described alike.
pub proof fn token_text_tells_kinds_apart(k1: TokenList, k2: TokenList)
    ensures
        token_text(k1) == token_text(k2) ==> k1 == k2,
{
    name_spells_the_kind(k1);
    name_spells_the_kind(k2);
    if token_text(k1) == token_text(k2) {
        let pre = "Token (type="@;
        let post = ")"@;
        let a = k1.name_text();
        let b = k2.name_text();
        assert(token_text(k1).len() == token_text(k2).len());
        assert(a.len() == b.len());
        assert(a =~= token_text(k1).subrange(pre.len() as int, (pre.len() + a.len()) as int));
        assert(b =~= token_text(k2).subrange(pre.len() as int, (pre.len() + b.len()) as int));
    }
}

/// The views of a sequence of tokens.
pub open spec fn views(toks: Seq<Token>) -> Seq<SpecToken> {
    toks.map_values(|t: Token| t@)
}

/// The views of a sequence with one more token.
pub proof fn lemma_views_push(s: Seq<Token>, t: Token)
    ensures
        views(s.push(t)) == views(s).push(t@),
{
    assert(views(s.push(t)) =~= views(s).push(t@)) by {
        assert forall|j: int| 0 <= j < s.len() + 1 implies views(s.push(t))[j] == views(s).push(t@)[j] by {
            if j < s.len() {
                assert(s.push(t)[j] == s[j]);
            }
        }
    }
}

} // verus!
