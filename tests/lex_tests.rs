use lexer::{lex, Token};

#[test]
fn test_valid_identifier() {
    let input = "abc def ghi";
    let expected_tokens = vec![
        Token::Ident("abc".to_string()),
        Token::Ident("def".to_string()),
        Token::Ident("ghi".to_string()),
        Token::End,
    ];

    let result = lex(input);
    assert_eq!(result, Ok(expected_tokens));
}

#[test]
fn test_invalid_identifier() {
    let input = "1abc";

    let result = lex(input);
    assert_eq!(
        result,
        Err("Invalid variable name starting with a number at: 1abc".to_string())
    );
}

#[test]
fn test_number_token() {
    let input = "123 456 789";
    let expected_tokens = vec![
        Token::Num(123),
        Token::Num(456),
        Token::Num(789),
        Token::End,
    ];

    let result = lex(input);
    assert_eq!(result, Ok(expected_tokens));
}

#[test]
fn test_comment_ignoring() {
    let input = "var x # this is a comment\nvar y";
    let expected_tokens = vec![
        Token::Ident("var".to_string()),
        Token::Ident("x".to_string()),
        Token::Ident("var".to_string()),
        Token::Ident("y".to_string()),
        Token::End,
    ];

    let result = lex(input);
    assert_eq!(result, Ok(expected_tokens));
}

#[test]
fn test_operator_tokens() {
    let input = "+ - * /";
    let expected_tokens = vec![
        Token::Plus,
        Token::Subtract,
        Token::Multiply,
        Token::Divide,
        Token::End,
    ];

    let result = lex(input);
    assert_eq!(result, Ok(expected_tokens));
}

#[test]
fn test_symbol_tokens() {
    let input = "( ) { } [ ] , ;";
    let expected_tokens = vec![
        Token::LeftParen,
        Token::RightParen,
        Token::LeftCurly,
        Token::RightCurly,
        Token::LeftBracket,
        Token::RightBracket,
        Token::Comma,
        Token::Semicolon,
        Token::End,
    ];

    let result = lex(input);
    assert_eq!(result, Ok(expected_tokens));
}

#[test]
fn test_multi_char_tokens() {
    let input = "< <= > >= == =";
    let expected_tokens = vec![
        Token::Less,
        Token::LessEqual,
        Token::Greater,
        Token::GreaterEqual,
        Token::Equality,
        Token::Assign,
        Token::End,
    ];

    let result = lex(input);
    assert_eq!(result, Ok(expected_tokens));
}

#[test]
fn test_unrecognized_symbol() {
    let input = "&";

    let result = lex(input);
    assert_eq!(result, Err("Unrecognized symbol '&'".to_string()));
}

#[test]
fn test_empty_input() {
    let input = "";
    let expected_tokens = vec![Token::End];

    let result = lex(input);
    assert_eq!(result, Ok(expected_tokens));
}

#[test]
fn test_invalid_token_with_digit() {
    let input = "123abc";

    let result = lex(input);
    assert_eq!(
        result,
        Err("Invalid variable name starting with a number at: 123abc".to_string())
    );
}
