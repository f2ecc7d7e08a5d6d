use apl_core::error::Error;
use apl_core::lexer::{get_id, scan_tokens};
use apl_core::num::Num;
use apl_core::token::Token;

fn scan(src: &str) -> Vec<Token> {
    scan_tokens(&String::from(src)).expect("scan should succeed")
}

#[test]
fn single_function_glyph_tokens() {
    for c in ['+', '-', '×', '÷', '⌈', '⌊'] {
        let tokens = scan(&c.to_string());
        assert_eq!(tokens, vec![Token::Eof, Token::Function(c)]);
    }
}

#[test]
fn single_operator_glyph_tokens() {
    for c in ['⍨', '/', '¨'] {
        let tokens = scan(&c.to_string());
        assert_eq!(tokens, vec![Token::Eof, Token::MonadicOperator(c)]);
    }
}

#[test]
fn single_structural_glyph_tokens() {
    assert_eq!(scan("("), vec![Token::Eof, Token::Paren('(')]);
    assert_eq!(scan(")"), vec![Token::Eof, Token::Paren(')')]);
    assert_eq!(scan("←"), vec![Token::Eof, Token::Assign]);
    assert_eq!(scan("⋄"), vec![Token::Eof, Token::Diamond]);
}

#[test]
fn number_accumulates_digits() {
    assert_eq!(scan("12"), vec![Token::Eof, Token::Number(Num::from_int(12))]);
}

#[test]
fn high_minus_negates() {
    assert_eq!(scan("¯12"), vec![Token::Eof, Token::Number(Num::from_int(-12))]);
}

#[test]
fn decimal_fraction_scans() {
    assert_eq!(scan("1.5"), vec![Token::Eof, Token::Number(Num::new(15, 1))]);
    assert_eq!(scan("3.0"), vec![Token::Eof, Token::Number(Num::from_int(3))]);
}

#[test]
fn identifier_scans() {
    assert_eq!(
        scan("ab1"),
        vec![Token::Eof, Token::Id(String::from("ab1"))]
    );
}

#[test]
fn whitespace_is_skipped() {
    assert_eq!(
        scan("1 2"),
        vec![
            Token::Eof,
            Token::Number(Num::from_int(1)),
            Token::Number(Num::from_int(2))
        ]
    );
}

#[test]
fn unexpected_character_is_lexical_error() {
    let r = scan_tokens(&String::from("1 @ 2"));
    assert_eq!(r, Err(Error::Lexical { index: 2, glyph: '@' }));
}

#[test]
fn lone_high_minus_is_lexical_error() {
    let r = scan_tokens(&String::from("¯"));
    assert_eq!(r, Err(Error::Lexical { index: 0, glyph: '¯' }));
}

#[test]
fn oversized_literal_is_limit_error() {
    let r = scan_tokens(&String::from("9999999999999999999999"));
    assert_eq!(r, Err(Error::Limit));
}

#[test]
fn too_many_decimal_places_is_limit_error() {
    let r = scan_tokens(&String::from("0.1111111111111111111"));
    assert_eq!(r, Err(Error::Limit));
}

#[test]
fn get_id_reads_alphanumeric_run() {
    let src = String::from("ab1 x");
    let (id, next) = get_id(&src, 0);
    assert_eq!(id, String::from("ab1"));
    assert_eq!(next, 3);
}
