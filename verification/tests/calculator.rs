use calc::ast::{interpret, Expression};
use calc::machine::{compile, run_stack, StackOp};
use calc::pipeline::{get_expression, CalcError};
use calc::value::Value;

fn eval_line(code: &str) -> Value {
    let expression = get_expression(code.to_string()).expect("the line should parse");
    interpret(&expression).expect("the value should fit the machine")
}

fn as_f64(v: Value) -> f64 {
    v.mantissa as f64 / 10f64.powi(v.scale as i32)
}

#[test]
fn precedence_of_product_over_sum() {
    let v = eval_line("2+3*4");
    assert_eq!(v, Value::new(14, 0));
    assert_eq!(as_f64(v), 14.0);
}

#[test]
fn subtraction_is_left_associative() {
    let v = eval_line("10-3-2");
    assert_eq!(v, Value::new(5, 0));
    assert_eq!(as_f64(v), 5.0);
}

#[test]
fn parentheses_override_precedence() {
    let v = eval_line("(2+3)*4");
    assert_eq!(v, Value::new(20, 0));
    assert_eq!(as_f64(v), 20.0);
}

#[test]
fn decimal_sum_is_exact() {
    let v = eval_line("1.25+1.75");
    assert_eq!(v, Value::new(300, 2));
    assert_eq!(as_f64(v), 3.0);
}

#[test]
fn leading_zero_in_fraction_is_preserved() {
    let v = eval_line("0.05");
    assert_eq!(v, Value::new(5, 2));
    assert_eq!(as_f64(v), 0.05);
}

#[test]
fn bare_point_has_zero_fraction() {
    assert_eq!(eval_line("1."), Value::new(1, 0));
    assert_eq!(eval_line("2.+3"), Value::new(5, 0));
}

#[test]
fn whitespace_does_not_change_the_tree() {
    let a = get_expression("1+1".to_string()).unwrap();
    let b = get_expression("1 + 1".to_string()).unwrap();
    let c = get_expression(" 1 + 1 ".to_string()).unwrap();
    assert_eq!(a, b);
    assert_eq!(a, c);
    assert_eq!(as_f64(interpret(&a).unwrap()), 2.0);
    assert_eq!(as_f64(interpret(&c).unwrap()), 2.0);
}

#[test]
fn both_back_ends_agree() {
    for code in ["2+3*4", "10-3-2", "(2+3)*4", "1.25+1.75", "0.05", "7", "(1-2)*(3-4)"] {
        let expression = get_expression(code.to_string()).unwrap();
        let direct = interpret(&expression).unwrap();
        let stack = run_stack(compile(&expression)).unwrap();
        assert_eq!(stack.len(), 1);
        assert_eq!(stack[0], direct);
    }
}

#[test]
fn both_back_ends_agree_on_overflow() {
    let code = "9223372036854775807+1";
    let expression = get_expression(code.to_string()).unwrap();
    assert_eq!(interpret(&expression), None);
    assert_eq!(run_stack(compile(&expression)), None);
}

#[test]
fn compilation_is_deterministic() {
    let expression = get_expression("(1.5+2)*3-4".to_string()).unwrap();
    let first = compile(&expression);
    let second = compile(&expression);
    assert_eq!(first, second);
}

#[test]
fn compiled_program_is_post_order() {
    let expression = get_expression("2+3*4".to_string()).unwrap();
    let ops = compile(&expression);
    assert_eq!(
        ops,
        vec![
            StackOp::Push(Value::new(2, 0)),
            StackOp::Push(Value::new(3, 0)),
            StackOp::Push(Value::new(4, 0)),
            StackOp::Multiply,
            StackOp::Add,
        ]
    );
}

#[test]
fn compiled_length_is_twice_leaves_minus_one() {
    let expression = get_expression("1+2*3-4".to_string()).unwrap();
    assert_eq!(compile(&expression).len(), 7);
}

#[test]
fn tree_shape_encodes_left_associativity() {
    let expression = get_expression("10-3-2".to_string()).unwrap();
    let inner = Box::new(Expression::Difference(
        Box::new(Expression::Number(Value::new(10, 0))),
        Box::new(Expression::Number(Value::new(3, 0))),
    ));
    let expected = Expression::Difference(inner, Box::new(Expression::Number(Value::new(2, 0))));
    assert_eq!(*expression, expected);
}

#[test]
fn subtraction_can_go_negative() {
    let v = eval_line("1-2");
    assert_eq!(v, Value::new(-1, 0));
    assert_eq!(as_f64(v), -1.0);
}

#[test]
fn mixed_scales_align_at_the_larger() {
    assert_eq!(eval_line("1.5+0.25"), Value::new(175, 2));
    assert_eq!(eval_line("0.5*0.5"), Value::new(25, 2));
}

#[test]
fn lex_error_is_wrapped() {
    match get_expression("a".to_string()) {
        Err(CalcError::Lex(_)) => {}
        other => panic!("expected a lexical error, got {:?}", other),
    }
}

#[test]
fn syntax_error_is_wrapped() {
    match get_expression("(1+2".to_string()) {
        Err(CalcError::Syntax(_)) => {}
        other => panic!("expected a syntax error, got {:?}", other),
    }
}
