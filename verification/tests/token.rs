use totient::lexer::tokenize;
use totient::token::{render, Token, TokenKind};

#[test]
fn kinds_of_tokens() {
    assert_eq!(Token::Return.kind(), TokenKind::Return);
    assert_eq!(Token::Semicolon.kind(), TokenKind::Semicolon);
    assert_eq!(Token::Literal("1".to_string()).kind(), TokenKind::Literal);
    assert_eq!(Token::Variable("x".to_string()).kind(), TokenKind::Variable);
}

#[test]
fn texts_of_tokens() {
    assert_eq!(Token::Return.text(), "return");
    assert_eq!(Token::Semicolon.text(), ";");
    assert_eq!(Token::Literal("042".to_string()).text(), "042");
    assert_eq!(Token::Variable("x1".to_string()).text(), "x1");
}

#[test]
fn labels_of_kinds() {
    assert_eq!(TokenKind::Return.label(), "Return!");
    assert_eq!(TokenKind::Variable.label(), "Variable!");
    assert_eq!(TokenKind::Literal.label(), "Literal!");
    assert_eq!(TokenKind::Semicolon.label(), "Semicolon!");
}

#[test]
fn render_joins_with_single_spaces() {
    assert_eq!(render(&[]), "");
    assert_eq!(render(&[Token::Return]), "return");
    assert_eq!(
        render(&[
            Token::Return,
            Token::Literal("5".to_string()),
            Token::Semicolon,
        ]),
        "return 5 ;"
    );
}

#[test]
fn texts_survive_a_round_trip() {
    let words = vec!["return", "x1", ";", "42", "returns", ";", ";", "é9", "0"];
    let source = words.join(" ");
    let tokens = tokenize(&source);
    let found: Vec<String> = tokens.iter().map(|t| t.text()).collect();
    assert_eq!(found, words);
}

#[test]
fn tokens_survive_a_round_trip() {
    let tokens = vec![
        Token::Variable("a".to_string()),
        Token::Literal("12".to_string()),
        Token::Return,
        Token::Semicolon,
        Token::Variable("returned".to_string()),
        Token::Literal("3".to_string()),
        Token::Literal("4".to_string()),
    ];
    assert_eq!(tokenize(&render(&tokens)), tokens);
}

#[test]
fn lexing_rendered_tokens_changes_nothing() {
    let source = "return  x;;1 2ab\treturn;\n y+z";
    let tokens = tokenize(source);
    let again = tokenize(&render(&tokens));
    assert_eq!(again, tokens);
    assert_eq!(render(&again), render(&tokens));
}
