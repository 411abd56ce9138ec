use scanner::scanner::{ScanError, Scanner};
use scanner::TokenList::{And, Arrow, Assign, Colon, Comma, Dot, Engk, Entity, EqualTo, Evolve, False, Greater, GreaterEql, Identifier, Law, LeftBrace, LeftParen, Less, LessEql, Minus, Modulo, Nil, Not, NotEqual, Number, Or, Plus, Print, Return, RightBrace, RightParen, Semicolon, Star, True, Until, Var, When};
use scanner::{Literal, Token, TokenList};

fn scan(source: &str) -> Result<Vec<Token>, Vec<ScanError>> {
    Scanner::new(source).scan_tokens()
}

fn kinds(source: &str) -> Vec<TokenList> {
    scan(source).unwrap().iter().map(|t| t.token_type).collect()
}

fn lexemes(source: &str) -> Vec<String> {
    scan(source).unwrap().iter().map(|t| t.lexeme.clone()).collect()
}

#[test]
fn single_character_tokens() {
    assert_eq!(
        kinds("(){},.+*%;:"),
        vec![
            LeftParen, RightParen, LeftBrace, RightBrace, Comma, Dot, Plus, Star, Modulo,
            Semicolon, Colon, Engk
        ]
    );
}

#[test]
fn one_or_two_character_tokens() {
    assert_eq!(
        kinds("-> != == >= <= - ! = > <"),
        vec![Arrow, NotEqual, EqualTo, GreaterEql, LessEql, Minus, Not, Assign, Greater, Less, Engk]
    );
    assert_eq!(lexemes("!=="), vec!["!=", "=", ""]);
}

#[test]
fn not_equal_is_one_token() {
    assert_eq!(kinds("!="), vec![TokenList::NotEqual, TokenList::Engk]);
    assert_eq!(kinds("! ="), vec![TokenList::Not, TokenList::Assign, TokenList::Engk]);
}

#[test]
fn keywords_and_identifiers() {
    assert_eq!(
        kinds("and andy _x9 entity evolve until when nil or print return var law true false"),
        vec![
            And, Identifier, Identifier, Entity, Evolve, Until, When, Nil, Or, Print, Return, Var,
            Law, True, False, Engk
        ]
    );
    assert_eq!(lexemes("andy _x9"), vec!["andy", "_x9", ""]);
}

#[test]
fn number_literals() {
    assert_eq!(kinds("123 4.5 6. .7"), vec![Number, Number, Number, Dot, Dot, Number, Engk]);
    assert_eq!(lexemes("123 4.5 6. .7"), vec!["123", "4.5", "6", ".", ".", "7", ""]);
    let tokens = scan("4.50").unwrap();
    match &tokens[0].literal {
        Literal::Num(text) => assert_eq!(text, "4.50"),
        other => panic!("unexpected literal {:?}", other),
    }
}

#[test]
fn string_literals_keep_their_contents_and_start_line() {
    let tokens = scan("\"hi\nthere\" +").unwrap();
    assert_eq!(tokens[0].token_type, TokenList::StringLit);
    assert_eq!(tokens[0].lexeme, "\"hi\nthere\"");
    match &tokens[0].literal {
        Literal::Str(s) => assert_eq!(s, "hi\nthere"),
        other => panic!("unexpected literal {:?}", other),
    }
    assert_eq!(tokens[0].line, 1);
    assert_eq!(tokens[1].token_type, TokenList::Plus);
    assert_eq!(tokens[1].line, 2);
}

#[test]
fn unterminated_string_reports_its_start_line() {
    let errors = scan("+\n\"abc\ndef").unwrap_err();
    assert_eq!(errors.len(), 1);
    assert_eq!(errors[0].line, 2);
    assert_eq!(errors[0].message, "Unterminated string.");
}

#[test]
fn comments_and_white_space_are_skipped() {
    let tokens = scan("// a comment (\n\t+ \r-").unwrap();
    let kinds: Vec<TokenList> = tokens.iter().map(|t| t.token_type).collect();
    assert_eq!(kinds, vec![TokenList::Plus, TokenList::Minus, TokenList::Engk]);
    assert_eq!(tokens[0].line, 2);
    assert_eq!(kinds_of_slash(), vec![TokenList::Slash, TokenList::Engk]);
}

fn kinds_of_slash() -> Vec<TokenList> {
    kinds("/")
}

#[test]
fn every_error_is_collected() {
    let errors = scan("@ 1 #\n$").unwrap_err();
    let found: Vec<(usize, String)> = errors.iter().map(|e| (e.line, e.message.clone())).collect();
    assert_eq!(
        found,
        vec![
            (1, "Unexpected character '@'".to_string()),
            (1, "Unexpected character '#'".to_string()),
            (2, "Unexpected character '$'".to_string()),
        ]
    );
}

#[test]
fn end_of_input_token_is_last_and_on_last_line() {
    let tokens = scan("1\n2\n").unwrap();
    let last = tokens.last().unwrap();
    assert_eq!(last.token_type, TokenList::Engk);
    assert_eq!(last.lexeme, "");
    assert_eq!(last.line, 3);
    assert_eq!(tokens.iter().filter(|t| t.token_type == TokenList::Engk).count(), 1);
    let empty = scan("").unwrap();
    assert_eq!(empty.len(), 1);
    assert_eq!(empty[0].line, 1);
}

#[test]
fn scanner_hands_out_items_one_at_a_time() {
    let mut s = Scanner::new("1 @");
    assert_eq!(s.next().unwrap().unwrap().token_type, TokenList::Number);
    assert_eq!(s.next().unwrap().unwrap_err().message, "Unexpected character '@'");
    assert_eq!(s.next().unwrap().unwrap().token_type, TokenList::Engk);
    assert!(s.next().is_none());
    assert!(s.next().is_none());
}

#[test]
fn token_to_string_names_the_kind() {
    let tokens = scan("( 12 \"s\" and").unwrap();
    let texts: Vec<String> = tokens.iter().map(|t| t.to_string()).collect();
    assert_eq!(
        texts,
        vec![
            "Token (type=LeftParen)",
            "Token (type=Number)",
            "Token (type=StringLit)",
            "Token (type=And)",
            "Token (type=Engk)",
        ]
    );
}

#[test]
fn token_lines_never_decrease() {
    let tokens = scan("a\n\nb c // x\n\"p\nq\" d").unwrap();
    let lines: Vec<usize> = tokens.iter().map(|t| t.line).collect();
    assert_eq!(lines, vec![1, 3, 3, 4, 5, 5]);
}

#[test]
fn collect_hands_out_what_next_does() {
    let items = Scanner::new("1 @ +").collect();
    assert_eq!(items.len(), 4);
    assert_eq!(items[0].as_ref().unwrap().token_type, Number);
    assert_eq!(items[1].as_ref().unwrap_err().message, "Unexpected character '@'");
    assert_eq!(items[2].as_ref().unwrap().token_type, Plus);
    assert_eq!(items[3].as_ref().unwrap().token_type, Engk);
    let errors = scan("1 @ +").unwrap_err();
    assert_eq!(errors.len(), 1);
}

#[test]
fn scan_has_at_most_one_item_per_character_plus_one() {
    for source in ["", "a", "1 + 2", "@@@", "\"open", "// only a comment"] {
        let n = source.chars().count();
        let items = Scanner::new(source).collect();
        assert!(items.len() <= n + 1);
        let last = items.last().unwrap().as_ref().unwrap();
        assert_eq!(last.token_type, Engk);
    }
}
