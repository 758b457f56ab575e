use arith_eval::ast::{Expression, Token, Value};
use arith_eval::evaluator::{eval_expression, wf_check};
use arith_eval::tokenizer::{parse, scans_ok};

fn num(text: &str) -> Token {
    Token::Number(String::from(text))
}

#[test]
fn test_tokens_of_mixed_expression() {
    let tokens = parse("12 / 6 * 3");
    assert_eq!(
        tokens,
        vec![num("12"), Token::OpDiv, num("6"), Token::OpMul, num("3")]
    );
}

#[test]
fn test_minus_after_number_is_subtraction() {
    assert_eq!(parse("1 - 5"), vec![num("1"), Token::OpSub, num("5")]);
}

#[test]
fn test_minus_elsewhere_is_a_sign() {
    assert_eq!(parse("-5"), vec![num("-5")]);
    assert_eq!(
        parse("(1 + -2)"),
        vec![
            Token::LeftParen,
            num("1"),
            Token::OpAdd,
            num("-2"),
            Token::RightParen
        ]
    );
}

#[test]
fn test_whitespace_is_skipped() {
    assert_eq!(parse("  1  +  2  "), parse("1+2"));
}

#[test]
fn test_decimal_run_is_one_token() {
    assert_eq!(parse("0.86 * 2"), vec![num("0.86"), Token::OpMul, num("2")]);
}

#[test]
fn test_tokenizing_twice_is_identical() {
    assert_eq!(parse("(1 + 2) * 4 / 2"), parse("(1 + 2) * 4 / 2"));
}

#[test]
fn test_tree_shape_respects_precedence() {
    let tokens = parse("1 + 2 * 3");
    let mut pos = 0usize;
    let value = eval_expression(&tokens, &mut pos);
    let expected = Value::Expression(Box::new(Expression::Add(
        Value::Literal(String::from("1")),
        Value::Expression(Box::new(Expression::Mul(
            Value::Literal(String::from("2")),
            Value::Literal(String::from("3")),
        ))),
    )));
    assert_eq!(value, expected);
}

#[test]
fn test_tree_shape_is_left_associative() {
    let tokens = parse("13 - 21 - 12");
    let mut pos = 0usize;
    let value = eval_expression(&tokens, &mut pos);
    let expected = Value::Expression(Box::new(Expression::Sub(
        Value::Expression(Box::new(Expression::Sub(
            Value::Literal(String::from("13")),
            Value::Literal(String::from("21")),
        ))),
        Value::Literal(String::from("12")),
    )));
    assert_eq!(value, expected);
}

#[test]
fn test_scans_ok_accepts_and_rejects() {
    assert!(scans_ok("(1 + 2) * 4 / 2"));
    assert!(scans_ok("-5"));
    assert!(scans_ok(""));
    assert!(!scans_ok("1 + x"));
    assert!(!scans_ok(".5"));
    assert!(!scans_ok("2 ^ 3"));
}

#[test]
fn test_wf_check_accepts_and_rejects() {
    assert!(wf_check(&parse("(1 + 2) * 4 / 2")));
    assert!(wf_check(&parse("-5")));
    assert!(!wf_check(&parse("")));
    assert!(!wf_check(&parse("1 +")));
    assert!(!wf_check(&parse("(1 + 2")));
    assert!(!wf_check(&parse("1 2")));
}
