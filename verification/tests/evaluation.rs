use arith_eval::ast::{Expression, Value};
use arith_eval::evaluator::eval_expression;
use arith_eval::tokenizer::parse;

fn expression_value(e: &Expression) -> f32 {
    match e {
        Expression::Add(l, r) => value_of(l) + value_of(r),
        Expression::Sub(l, r) => value_of(l) - value_of(r),
        Expression::Mul(l, r) => value_of(l) * value_of(r),
        Expression::Div(l, r) => value_of(l) / value_of(r),
    }
}

fn value_of(v: &Value) -> f32 {
    match v {
        Value::Literal(num) => num.parse().unwrap(),
        Value::Expression(e) => expression_value(e),
    }
}

fn eval_value(input: &str) -> f32 {
    let tokens = parse(input);
    let mut pos = 0usize;
    let value = eval_expression(&tokens, &mut pos);
    value_of(&value)
}

#[test]
fn test_number() {
    assert_eq!(eval_value("3"), 3f32);
    assert_eq!(eval_value("5"), 5f32);
    assert_eq!(eval_value("-5"), -5f32);
}

#[test]
fn test_add() {
    assert_eq!(eval_value("3 + 4"), 7f32);
    assert_eq!(eval_value("1 + 0"), 1f32);
    assert_eq!(eval_value("-1 + 0"), -1f32);
    assert_eq!(eval_value("1 + 3 + 4"), 8f32);
    assert_eq!(eval_value("333 + 222"), 555f32);
}

#[test]
fn test_sub() {
    assert_eq!(eval_value("3 - 2"), 1f32);
    assert_eq!(eval_value("13 - 21 - 12"), -20f32);
    assert_eq!(eval_value("333 - 21"), 312f32);
}

#[test]
fn test_mul() {
    assert_eq!(eval_value("3 * 5"), 15f32);
    assert_eq!(eval_value("3 * 5 * 4"), 60f32);
}

#[test]
fn test_div() {
    assert_eq!(eval_value("3 / 2"), 1.5f32);
}

#[test]
fn test_together() {
    assert_eq!(eval_value("3 * 4 + 5 - 2"), 15f32);
}

#[test]
fn test_paren() {
    assert_eq!(eval_value("(1 + 2) * 4 / 2"), 6f32);
    assert_eq!(eval_value("12 / 6 * 3 + 2 * (111 - 11)"), 206f32);
}

#[test]
fn test_negative() {
    assert_eq!(eval_value("(1 + -2) * 4 / 2"), -2f32);
    assert_eq!(eval_value("(1 + -2) * 4 / -2"), 2f32);
}

#[test]
fn test_float() {
    assert_eq!(eval_value("1 - 2.05"), -1.05f32);
    assert_eq!(eval_value("0.86 * 2"), 1.72f32);
}

#[test]
fn test_integer_literals_evaluate_to_themselves() {
    assert_eq!(eval_value("0"), 0f32);
    assert_eq!(eval_value("17"), 17f32);
    assert_eq!(eval_value("100000"), 100000f32);
}

#[test]
fn test_reevaluation_is_identical() {
    let first = eval_value("12 / 6 * 3 + 2 * (111 - 11)");
    let second = eval_value("12 / 6 * 3 + 2 * (111 - 11)");
    assert_eq!(first, second);
    let third = eval_value("1 - 2.05");
    let fourth = eval_value("1 - 2.05");
    assert_eq!(third, fourth);
}

#[test]
fn test_deep_nesting() {
    assert_eq!(eval_value("((2))"), 2f32);
    assert_eq!(eval_value("(1 + (2 * (3 + 4)))"), 15f32);
}

#[test]
fn test_mul_chain_after_add() {
    assert_eq!(eval_value("1 + 2 * 3 * 4"), 25f32);
}
