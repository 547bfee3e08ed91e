use calc::ast::Expression;
use calc::lexer::lex_code;
use calc::parser::{parse_code, Parser, SyntaxError};
use calc::token::TokenKind;
use calc::value::Value;

fn parse_line(code: &str) -> Result<Box<Expression>, SyntaxError> {
    parse_code(lex_code(code.to_string()).unwrap())
}

#[test]
fn unterminated_group_is_unexpected_end_of_input() {
    let err = parse_line("(1+2").unwrap_err();
    assert_eq!(err, SyntaxError::UnexpectedEndOfInput);
    assert_eq!(err.description(), "unexpected end of input");
}

#[test]
fn dangling_operator_is_unexpected_end_of_input() {
    assert_eq!(parse_line("1+").unwrap_err(), SyntaxError::UnexpectedEndOfInput);
    assert_eq!(parse_line("2*").unwrap_err(), SyntaxError::UnexpectedEndOfInput);
}

#[test]
fn operator_in_operand_position_is_reported_with_its_offset() {
    let err = parse_line("1+*2").unwrap_err();
    assert_eq!(err, SyntaxError::UnexpectedToken { kind: TokenKind::Star, offset: 2 });
    assert_eq!(err.description(), "unexpected token");
}

#[test]
fn empty_input_is_unexpected_end_of_input() {
    assert_eq!(parse_line("").unwrap_err(), SyntaxError::UnexpectedEndOfInput);
    assert_eq!(parse_line("   ").unwrap_err(), SyntaxError::UnexpectedEndOfInput);
}

#[test]
fn token_after_a_complete_expression_is_rejected() {
    let err = parse_line("1 2").unwrap_err();
    assert_eq!(err, SyntaxError::UnexpectedToken { kind: TokenKind::Number, offset: 2 });
    let err = parse_line("(1)2").unwrap_err();
    assert_eq!(err, SyntaxError::UnexpectedToken { kind: TokenKind::Number, offset: 3 });
}

#[test]
fn nested_groups_collapse_to_their_inner_expression() {
    let e = parse_line("((7))").unwrap();
    assert_eq!(*e, Expression::Number(Value::new(7, 0)));
}

#[test]
fn product_binds_tighter_on_either_side() {
    let left = parse_line("2*3+4").unwrap();
    let expected = Expression::Sum(
        Box::new(Expression::Product(
            Box::new(Expression::Number(Value::new(2, 0))),
            Box::new(Expression::Number(Value::new(3, 0))),
        )),
        Box::new(Expression::Number(Value::new(4, 0))),
    );
    assert_eq!(*left, expected);
}

#[test]
fn product_chain_folds_left() {
    let e = parse_line("2*3*4").unwrap();
    let expected = Expression::Product(
        Box::new(Expression::Product(
            Box::new(Expression::Number(Value::new(2, 0))),
            Box::new(Expression::Number(Value::new(3, 0))),
        )),
        Box::new(Expression::Number(Value::new(4, 0))),
    );
    assert_eq!(*e, expected);
}

#[test]
fn deep_nesting_parses() {
    let e = parse_line("((((5))))").unwrap();
    assert_eq!(*e, Expression::Number(Value::new(5, 0)));
}

#[test]
fn parser_can_be_driven_by_hand() {
    let tokens = lex_code("1+2".to_string()).unwrap();
    let mut parser = Parser::new(tokens);
    let e = parser.parse().unwrap();
    let expected = Expression::Sum(
        Box::new(Expression::Number(Value::new(1, 0))),
        Box::new(Expression::Number(Value::new(2, 0))),
    );
    assert_eq!(*e, expected);
}
