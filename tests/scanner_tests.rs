use lexer::{create_identifier, lex, scan, LexError, Token};

fn ident(s: &str) -> Token {
    Token::Ident(s.to_string())
}

#[test]
fn bare_bang_is_unrecognized() {
    assert_eq!(scan("!"), Err(LexError::UnrecognizedSymbol('!')));
    assert_eq!(lex("!"), Err("Unrecognized symbol '!'".to_string()));
}

#[test]
fn bang_equal_is_not_equal() {
    assert_eq!(lex("!="), Ok(vec![Token::NotEqual, Token::End]));
}

#[test]
fn bang_followed_by_other_is_unrecognized() {
    assert_eq!(scan("x !a"), Err(LexError::UnrecognizedSymbol('!')));
}

#[test]
fn ampersand_is_named() {
    assert_eq!(scan("&"), Err(LexError::UnrecognizedSymbol('&')));
}

#[test]
fn operators_without_spaces_continue_after_compound() {
    assert_eq!(
        lex("a<=b>=c==d!=e<f>g=h"),
        Ok(vec![
            ident("a"),
            Token::LessEqual,
            ident("b"),
            Token::GreaterEqual,
            ident("c"),
            Token::Equality,
            ident("d"),
            Token::NotEqual,
            ident("e"),
            Token::Less,
            ident("f"),
            Token::Greater,
            ident("g"),
            Token::Assign,
            ident("h"),
            Token::End,
        ])
    );
}

#[test]
fn triple_equals_is_equality_then_assign() {
    assert_eq!(lex("==="), Ok(vec![Token::Equality, Token::Assign, Token::End]));
}

#[test]
fn compound_lead_at_end_of_input() {
    assert_eq!(lex("x <"), Ok(vec![ident("x"), Token::Less, Token::End]));
}

#[test]
fn modulus_token() {
    assert_eq!(lex("7%2"), Ok(vec![Token::Num(7), Token::Modulus, Token::Num(2), Token::End]));
}

#[test]
fn all_keywords() {
    assert_eq!(
        lex("func return int print else break continue while if read"),
        Ok(vec![
            Token::Func,
            Token::Return,
            Token::Int,
            Token::Print,
            Token::Else,
            Token::Break,
            Token::Continue,
            Token::While,
            Token::If,
            Token::Read,
            Token::End,
        ])
    );
}

#[test]
fn keyword_is_matched_on_whole_word_only() {
    assert_eq!(
        lex("iff if1 whilex Int"),
        Ok(vec![ident("iff"), ident("if1"), ident("whilex"), ident("Int"), Token::End])
    );
}

#[test]
fn identifier_with_digits() {
    assert_eq!(lex("abc123 x9y"), Ok(vec![ident("abc123"), ident("x9y"), Token::End]));
}

#[test]
fn words_rejoined_give_input() {
    let input = "print x1 while Yz";
    let tokens = lex(input).unwrap();
    let texts: Vec<String> = tokens
        .iter()
        .filter_map(|t| match t {
            Token::Ident(s) => Some(s.clone()),
            Token::Print => Some("print".to_string()),
            Token::While => Some("while".to_string()),
            _ => None,
        })
        .collect();
    assert_eq!(texts.join(" "), input);
    assert_eq!(tokens.len(), 5);
}

#[test]
fn create_identifier_resolves_keywords() {
    assert_eq!(create_identifier("while"), Token::While);
    assert_eq!(create_identifier("continue"), Token::Continue);
    assert_eq!(create_identifier("whale"), ident("whale"));
    assert_eq!(create_identifier(""), ident(""));
}

#[test]
fn numeral_followed_by_symbol() {
    assert_eq!(lex("42;"), Ok(vec![Token::Num(42), Token::Semicolon, Token::End]));
}

#[test]
fn numeral_leading_zeros() {
    assert_eq!(lex("007"), Ok(vec![Token::Num(7), Token::End]));
}

#[test]
fn numeral_largest() {
    assert_eq!(lex("2147483647"), Ok(vec![Token::Num(2147483647), Token::End]));
}

#[test]
fn numeral_overflow() {
    assert_eq!(
        scan("1 2147483648"),
        Err(LexError::NumeralOverflow("2147483648".to_string()))
    );
    assert_eq!(
        lex("99999999999999999999"),
        Err("Numeral out of range: 99999999999999999999".to_string())
    );
}

#[test]
fn invalid_identifier_names_rest_of_input() {
    assert_eq!(
        scan("x = 12ab + y"),
        Err(LexError::InvalidIdentifier("12ab + y".to_string()))
    );
}

#[test]
fn invalid_identifier_before_overflow() {
    assert_eq!(
        scan("99999999999x"),
        Err(LexError::InvalidIdentifier("99999999999x".to_string()))
    );
}

#[test]
fn digits_then_space_then_letters() {
    assert_eq!(lex("1 abc"), Ok(vec![Token::Num(1), ident("abc"), Token::End]));
}

#[test]
fn comment_on_last_line_without_newline() {
    assert_eq!(lex("x # trailing"), Ok(vec![ident("x"), Token::End]));
    assert_eq!(lex("#"), Ok(vec![Token::End]));
}

#[test]
fn comment_hides_symbols() {
    assert_eq!(lex("# & ! 1abc\ny"), Ok(vec![ident("y"), Token::End]));
}

#[test]
fn newlines_are_skipped() {
    assert_eq!(lex("\n\na\n"), Ok(vec![ident("a"), Token::End]));
}

#[test]
fn tab_is_unrecognized() {
    assert_eq!(scan("a\tb"), Err(LexError::UnrecognizedSymbol('\t')));
}

#[test]
fn non_ascii_is_unrecognized() {
    assert_eq!(scan("é"), Err(LexError::UnrecognizedSymbol('é')));
}

#[test]
fn first_error_wins() {
    assert_eq!(scan("& 1a"), Err(LexError::UnrecognizedSymbol('&')));
}

#[test]
fn error_messages() {
    assert_eq!(
        LexError::InvalidIdentifier("3d".to_string()).message(),
        "Invalid variable name starting with a number at: 3d".to_string()
    );
    assert_eq!(
        LexError::UnrecognizedSymbol('$').message(),
        "Unrecognized symbol '$'".to_string()
    );
    assert_eq!(
        LexError::NumeralOverflow("3000000000".to_string()).message(),
        "Numeral out of range: 3000000000".to_string()
    );
}

#[test]
fn end_appears_once_at_the_end() {
    let tokens = lex("a (b) { c[1], 2; }").unwrap();
    assert_eq!(tokens.last(), Some(&Token::End));
    assert_eq!(tokens.iter().filter(|t| **t == Token::End).count(), 1);
}
