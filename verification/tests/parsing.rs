//! Tokenizing and parsing of the surface syntax.

use rambda::{abs, apl, var, Lexer, Parser, Token};

fn tokens(input: &str) -> Vec<Token> {
    let mut lexer = Lexer::new();
    lexer.reload(input);
    lexer.tokenize()
}

#[test]
fn tokenize_recognizes_all_token_kinds() {
    assert_eq!(
        tokens("λx.(x, y)"),
        vec![
            Token::Lambda,
            Token::Identifier("x".to_string()),
            Token::Dot,
            Token::LeftParen,
            Token::Identifier("x".to_string()),
            Token::Comma,
            Token::Identifier("y".to_string()),
            Token::RightParen,
        ]
    );
}

#[test]
fn backslash_tokenizes_like_lambda() {
    assert_eq!(tokens("\\x"), tokens("λx"));
}

#[test]
fn unknown_characters_are_skipped() {
    assert_eq!(
        tokens("x @! y"),
        vec![
            Token::Identifier("x".to_string()),
            Token::Identifier("y".to_string()),
        ]
    );
}

#[test]
fn identifiers_may_hold_digits_and_underscores() {
    assert_eq!(
        tokens("y_1 x2"),
        vec![
            Token::Identifier("y_1".to_string()),
            Token::Identifier("x2".to_string()),
        ]
    );
}

#[test]
fn a_cleared_lexer_has_nothing_to_tokenize() {
    let mut lexer = Lexer::new();
    lexer.load("x y");
    lexer.clear();
    assert_eq!(lexer.tokenize(), vec![]);
}

#[test]
fn parse_builds_left_associative_applications() {
    let mut parser = Parser::new(tokens("x y z"));
    let term = parser.parse().expect("should parse");
    assert_eq!(term, apl(apl(var("x"), var("y")), var("z")));
}

#[test]
fn parse_desugars_parameter_runs_rightmost_innermost() {
    let mut parser = Parser::new(tokens("λx,y.x y"));
    let term = parser.parse().expect("should parse");
    assert_eq!(term, abs("x", abs("y", apl(var("x"), var("y")))));
}

#[test]
fn parse_respects_parentheses() {
    let mut parser = Parser::new(tokens("x (y z)"));
    let term = parser.parse().expect("should parse");
    assert_eq!(term, apl(var("x"), apl(var("y"), var("z"))));
}

#[test]
fn parse_rejects_unbalanced_parentheses() {
    assert_eq!(Parser::new(tokens("(x")).parse(), None);
    assert_eq!(Parser::new(tokens("x)")).parse(), None);
}

#[test]
fn parse_rejects_a_parameter_without_comma_or_dot() {
    assert_eq!(Parser::new(tokens("λx y")).parse(), None);
}

#[test]
fn parse_rejects_empty_input() {
    assert_eq!(Parser::new(tokens("")).parse(), None);
}

#[test]
fn parse_rejects_trailing_tokens() {
    assert_eq!(Parser::new(tokens("x .")).parse(), None);
}

#[test]
fn parse_primary_consumes_one_unit() {
    let mut parser = Parser::new(tokens("x y"));
    let first = parser.parse_primary().expect("should parse");
    assert_eq!(first, var("x"));
    let second = parser.parse_primary().expect("should parse");
    assert_eq!(second, var("y"));
    assert_eq!(parser.parse_primary(), None);
}

#[test]
fn parse_application_and_parse_expr_agree() {
    let mut by_application = Parser::new(tokens("f x y"));
    let mut by_expr = Parser::new(tokens("f x y"));
    assert_eq!(
        by_application.parse_application(),
        by_expr.parse_expr()
    );
}
