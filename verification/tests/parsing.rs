use scanner::lines::split_by_line;
use scanner::parser::{Expr, ParseError, Parser};
use scanner::run::{parse_line, parse_lines, tokenize, Failure};
use scanner::scanner::Scanner;
use scanner::TokenList::{Engk, Minus, Number, Plus};
use scanner::{Literal, Token, TokenList};

fn parse(source: &str) -> Result<Expr, ParseError> {
    let tokens = Scanner::new(source).scan_tokens().unwrap();
    let mut parser = Parser::new(tokens);
    parser.expression()
}

fn printed(source: &str) -> String {
    parse(source).unwrap().print()
}

fn token(kind: TokenList, lexeme: &str, line: usize) -> Token {
    Token { token_type: kind, lexeme: lexeme.to_string(), literal: Literal::Nil, line }
}

#[test]
fn terms_group_to_the_left() {
    assert_eq!(printed("1 - 2 - 3"), "((1 - 2) - 3)");
    assert_eq!(printed("1 + 2 - 3 + 4"), "(((1 + 2) - 3) + 4)");
}

#[test]
fn parentheses_make_a_group() {
    assert_eq!(printed("(1 + 2)"), "(group (1 + 2))");
    assert_eq!(printed("1 - (2 - 3)"), "(1 - (group (2 - 3)))");
    assert_eq!(printed("((7))"), "(group (group 7))");
}

#[test]
fn literals_print_as_values() {
    assert_eq!(printed("\"a b\" + 1"), "(a b + 1)");
    assert_eq!(printed("1.50"), "1.5");
    assert_eq!(printed("007"), "7");
    assert_eq!(printed("2.0"), "2");
    assert_eq!(printed("0.25"), "0.25");
    assert_eq!(printed("10.010"), "10.01");
    assert_eq!(printed("100"), "100");
}

#[test]
fn a_nil_literal_prints_as_nil() {
    assert_eq!(Expr::Literal(Literal::Nil).print(), "nil");
}

#[test]
fn parse_stops_after_one_expression() {
    assert_eq!(printed("1 2"), "1");
    assert_eq!(printed("1 * 2"), "1");
}

#[test]
fn missing_operand_is_an_error() {
    let e = parse("+").unwrap_err();
    assert_eq!((e.line, e.message.as_str()), (1, "Expect expression."));
    let e = parse("1 +\n").unwrap_err();
    assert_eq!((e.line, e.message.as_str()), (2, "Expect expression."));
    let e = parse("").unwrap_err();
    assert_eq!(e.message, "Expect expression.");
}

#[test]
fn unclosed_group_is_an_error() {
    let e = parse("(1 + 2").unwrap_err();
    assert_eq!((e.line, e.message.as_str()), (1, "Expect ')' after expression."));
}

#[test]
fn parser_never_reads_past_the_end_of_input() {
    let tokens = vec![token(TokenList::LeftParen, "(", 1), token(TokenList::Engk, "", 1)];
    let mut parser = Parser::new(tokens);
    let e = parser.expression().unwrap_err();
    assert_eq!(e.message, "Expect expression.");
    let e = parser.expression().unwrap_err();
    assert_eq!(e.message, "Expect expression.");
}

#[test]
fn a_parse_that_stops_early_needs_no_end_of_input() {
    let number = Token {
        token_type: Number,
        lexeme: "4".to_string(),
        literal: Literal::Num("4".to_string()),
        line: 1,
    };
    let tokens = vec![number, token(TokenList::Star, "*", 1)];
    let mut parser = Parser::new(tokens);
    assert_eq!(parser.expression().unwrap().print(), "4");
}

#[test]
fn split_by_line_groups_runs_of_one_line() {
    let tokens = Scanner::new("1 + 2\n3\n\n4 - 5").scan_tokens().unwrap();
    let groups = split_by_line(tokens);
    let shape: Vec<Vec<(TokenList, usize)>> = groups
        .iter()
        .map(|g| g.iter().map(|t| (t.token_type, t.line)).collect())
        .collect();
    assert_eq!(
        shape,
        vec![
            vec![(Number, 1), (Plus, 1), (Number, 1), (Engk, 1)],
            vec![(Number, 2), (Engk, 2)],
            vec![(Number, 4), (Minus, 4), (Number, 4), (Engk, 4)],
        ]
    );
}

#[test]
fn split_by_line_stops_at_the_first_end_of_input() {
    let tokens = vec![
        token(TokenList::Plus, "+", 3),
        token(TokenList::Engk, "", 3),
        token(TokenList::Minus, "-", 4),
    ];
    let groups = split_by_line(tokens);
    assert_eq!(groups.len(), 1);
    assert_eq!(groups[0].len(), 2);
    assert_eq!(groups[0][1].token_type, TokenList::Engk);
    assert_eq!(groups[0][1].line, 3);
    assert!(split_by_line(vec![token(TokenList::Engk, "", 1)]).is_empty());
}

#[test]
fn tokenize_describes_every_token() {
    assert_eq!(
        tokenize("1 +").unwrap(),
        vec!["Token (type=Number)", "Token (type=Plus)", "Token (type=Engk)"]
    );
    assert_eq!(tokenize("&").unwrap_err()[0].message, "Unexpected character '&'");
}

#[test]
fn parse_lines_prints_each_line() {
    let printed: Vec<String> =
        parse_lines("1 + 2\n(3)\n\"s\"").unwrap().iter().map(|e| e.print()).collect();
    assert_eq!(printed, vec!["(1 + 2)", "(group 3)", "s"]);
    assert!(parse_lines("").unwrap().is_empty());
}

#[test]
fn parse_lines_reports_every_failing_line() {
    match parse_lines("1 +\n2\n(3").unwrap_err() {
        Failure::Parse(errors) => {
            let found: Vec<(usize, String)> =
                errors.iter().map(|e| (e.line, e.message.clone())).collect();
            assert_eq!(
                found,
                vec![
                    (1, "Expect expression.".to_string()),
                    (3, "Expect ')' after expression.".to_string()),
                ]
            );
        }
        other => panic!("unexpected failure {:?}", other),
    }
    match parse_lines("1 ?").unwrap_err() {
        Failure::Scan(errors) => assert_eq!(errors[0].message, "Unexpected character '?'"),
        other => panic!("unexpected failure {:?}", other),
    }
}

#[test]
fn parse_line_parses_the_whole_line() {
    assert_eq!(parse_line("1 + (2 - 3)\n").unwrap().print(), "(1 + (group (2 - 3)))");
    match parse_line(")").unwrap_err() {
        Failure::Parse(errors) => {
            assert_eq!(errors.len(), 1);
            assert_eq!(errors[0].message, "Expect expression.");
        }
        other => panic!("unexpected failure {:?}", other),
    }
}

#[test]
fn number_literals_come_left_to_right() {
    let e = parse("1.50 + (\"s\" - 007) + 2").unwrap();
    assert_eq!(e.number_literals(), vec!["1.50", "007", "2"]);
}

#[test]
fn print_with_shows_numbers_as_given() {
    let e = parse("1.50 + (\"s\" - 007) + 2").unwrap();
    let numbers = vec!["A".to_string(), "B".to_string(), "C".to_string()];
    assert_eq!(e.print_with(&numbers), "((A + (group (s - B))) + C)");
    let own: Vec<String> = vec!["1.5".to_string(), "7".to_string(), "2".to_string()];
    assert_eq!(e.print_with(&own), e.print());
}

#[test]
fn float_text_of_long_literals_rounds_through_print_with() {
    let e = parse("12345678901234567890").unwrap();
    assert_eq!(e.print(), "12345678901234567890");
    let lexeme = &e.number_literals()[0];
    let value: f64 = lexeme.parse().unwrap();
    let numbers = vec![format!("{value}")];
    assert_eq!(e.print_with(&numbers), "12345678901234567000");
}
