use calc::lexer::{lex_code, LexError};
use calc::token::TokenKind;
use calc::value::Value;

#[test]
fn unexpected_character_names_char_and_offset() {
    assert_eq!(
        lex_code("a".to_string()),
        Err(LexError::UnexpectedCharacter { ch: 'a', offset: 0 })
    );
    assert_eq!(
        lex_code("1+%".to_string()),
        Err(LexError::UnexpectedCharacter { ch: '%', offset: 2 })
    );
}

#[test]
fn lexing_stops_at_the_first_error() {
    assert_eq!(
        lex_code("1+a+b".to_string()),
        Err(LexError::UnexpectedCharacter { ch: 'a', offset: 2 })
    );
}

#[test]
fn tabs_are_not_whitespace() {
    assert_eq!(
        lex_code("1\t2".to_string()),
        Err(LexError::UnexpectedCharacter { ch: '\t', offset: 1 })
    );
}

#[test]
fn tokens_carry_kinds_lexemes_and_offsets() {
    let tokens = lex_code("1.25+( 2 )".to_string()).unwrap();
    let kinds: Vec<TokenKind> = tokens.iter().map(|t| t.kind).collect();
    assert_eq!(
        kinds,
        vec![
            TokenKind::Number,
            TokenKind::Plus,
            TokenKind::LeftParen,
            TokenKind::Number,
            TokenKind::RightParen,
            TokenKind::Eof,
        ]
    );
    assert_eq!(tokens[0].lexeme, "1.25");
    assert_eq!(tokens[0].literal, Some(Value::new(125, 2)));
    assert_eq!(tokens[0].start, 0);
    assert_eq!(tokens[1].lexeme, "+");
    assert_eq!(tokens[1].start, 4);
    assert_eq!(tokens[3].lexeme, "2");
    assert_eq!(tokens[3].start, 7);
    assert_eq!(tokens[5].start, 10);
    assert_eq!(tokens[5].lexeme, "");
}

#[test]
fn offsets_strictly_increase_and_one_terminal_closes() {
    let tokens = lex_code(" 1 + 2 * 3 ".to_string()).unwrap();
    for pair in tokens.windows(2) {
        assert!(pair[0].start < pair[1].start);
    }
    assert_eq!(tokens.last().unwrap().kind, TokenKind::Eof);
    assert_eq!(tokens.last().unwrap().start, 11);
    assert_eq!(
        tokens[..tokens.len() - 1]
            .iter()
            .filter(|t| t.kind == TokenKind::Eof)
            .count(),
        0
    );
}

#[test]
fn empty_input_yields_only_the_terminal() {
    let tokens = lex_code(String::new()).unwrap();
    assert_eq!(tokens.len(), 1);
    assert_eq!(tokens[0].kind, TokenKind::Eof);
    assert_eq!(tokens[0].start, 0);
}

#[test]
fn literal_larger_than_the_machine_is_reported() {
    assert_eq!(
        lex_code("99999999999999999999".to_string()),
        Err(LexError::LiteralOverflow { offset: 0 })
    );
    assert_eq!(
        lex_code("1+12345678901234567890.5".to_string()),
        Err(LexError::LiteralOverflow { offset: 2 })
    );
}

#[test]
fn largest_literal_still_fits() {
    let tokens = lex_code("9223372036854775807".to_string()).unwrap();
    assert_eq!(tokens[0].literal, Some(Value::new(i64::MAX, 0)));
}

#[test]
fn many_leading_zeros_still_overflow_by_value_only() {
    let tokens = lex_code("0000000000000000000000042".to_string()).unwrap();
    assert_eq!(tokens[0].literal, Some(Value::new(42, 0)));
}

#[test]
fn error_descriptions_name_the_failure() {
    let lex_err = lex_code("a".to_string()).unwrap_err();
    assert_eq!(lex_err.description(), "unexpected character");
    let overflow = lex_code("99999999999999999999".to_string()).unwrap_err();
    assert_eq!(overflow.description(), "numeric literal out of range");
}
