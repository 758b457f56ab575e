//! The data model: lexical tokens, and the expression tree that evaluation
//! builds bottom-up. Numbers keep their original text so that a leading sign
//! can be folded into the literal during tokenization.

use vstd::prelude::*;

verus! {

/// An operand: either a raw numeric literal (kept as text) or an owned,
/// already-combined sub-expression.
#[derive(Debug, PartialEq)]
pub enum Value {
    Literal(String),
    Expression(Box<Expression>),
}

/// A binary operation over two owned operands. Unary negation never appears
/// here: it is folded into literal text at tokenization time.
#[derive(Debug, PartialEq)]
pub enum Expression {
    Add(Value, Value),
    Sub(Value, Value),
    Mul(Value, Value),
    Div(Value, Value),
}

/// An atomic lexical unit of the input text.
#[derive(Debug, Clone, PartialEq)]
pub enum Token {
    Number(String),
    LeftParen,
    RightParen,
    OpAdd,
    OpSub,
    OpMul,
    OpDiv,
}

/// The mathematical shape of a `Token`: number text becomes a sequence of
/// characters.
pub enum TokenModel {
    Number(Seq<char>),
    LeftParen,
    RightParen,
    OpAdd,
    OpSub,
    OpMul,
    OpDiv,
}

impl View for Token {
    type V = TokenModel;

    open spec fn view(&self) -> TokenModel {
        match self {
            Token::Number(s) => TokenModel::Number(s@),
            Token::LeftParen => TokenModel::LeftParen,
            Token::RightParen => TokenModel::RightParen,
            Token::OpAdd => TokenModel::OpAdd,
            Token::OpSub => TokenModel::OpSub,
            Token::OpMul => TokenModel::OpMul,
            Token::OpDiv => TokenModel::OpDiv,
        }
    }
}

impl DeepView for Token {
    type V = TokenModel;

    open spec fn deep_view(&self) -> TokenModel {
        self.view()
    }
}

/// True of the two low-precedence operator tokens.
pub open spec fn is_add_or_sub(tok: TokenModel) -> bool {
    tok == TokenModel::OpAdd || tok == TokenModel::OpSub
}

/// True of the two high-precedence operator tokens.
pub open spec fn is_mul_or_div(tok: TokenModel) -> bool {
    tok == TokenModel::OpMul || tok == TokenModel::OpDiv
}

/// True of any of the four binary operator tokens.
pub open spec fn is_operator(tok: TokenModel) -> bool {
    is_add_or_sub(tok) || is_mul_or_div(tok)
}

/// The expression `e` is the application of the operator token `op` to the
/// operands `l` and `r`, in that order.
pub open spec fn expression_applies(op: TokenModel, l: Value, r: Value, e: Expression) -> bool {
    match e {
        Expression::Add(a, b) => op == TokenModel::OpAdd && a == l && b == r,
        Expression::Sub(a, b) => op == TokenModel::OpSub && a == l && b == r,
        Expression::Mul(a, b) => op == TokenModel::OpMul && a == l && b == r,
        Expression::Div(a, b) => op == TokenModel::OpDiv && a == l && b == r,
    }
}

/// The value `v` is a combined sub-expression applying the operator token
/// `op` to the operands `l` and `r`.
pub open spec fn value_applies(op: TokenModel, l: Value, r: Value, v: Value) -> bool {
    match v {
        Value::Literal(_) => false,
        Value::Expression(e) => expression_applies(op, l, r, *e),
    }
}

/// Two values are the same tree up to the identity of their literal texts:
/// literals with equal character sequences, or nodes of the same operator
/// whose operands are equivalent in turn.
pub open spec fn value_equiv(x: Value, y: Value) -> bool
    decreases x,
{
    match x {
        Value::Literal(s1) => match y {
            Value::Literal(s2) => s1@ == s2@,
            Value::Expression(_) => false,
        },
        Value::Expression(e1) => match y {
            Value::Literal(_) => false,
            Value::Expression(e2) => expression_equiv(*e1, *e2),
        },
    }
}

/// Two expressions apply the same operator to equivalent operands.
pub open spec fn expression_equiv(a: Expression, b: Expression) -> bool
    decreases a,
{
    match a {
        Expression::Add(l1, r1) => match b {
            Expression::Add(l2, r2) => value_equiv(l1, l2) && value_equiv(r1, r2),
            _ => false,
        },
        Expression::Sub(l1, r1) => match b {
            Expression::Sub(l2, r2) => value_equiv(l1, l2) && value_equiv(r1, r2),
            _ => false,
        },
        Expression::Mul(l1, r1) => match b {
            Expression::Mul(l2, r2) => value_equiv(l1, l2) && value_equiv(r1, r2),
            _ => false,
        },
        Expression::Div(l1, r1) => match b {
            Expression::Div(l2, r2) => value_equiv(l1, l2) && value_equiv(r1, r2),
            _ => false,
        },
    }
}

/// Applying one operator token to operand pairs that are equivalent side for
/// side yields equivalent values.
pub proof fn lemma_applies_equiv(
    op: TokenModel,
    l1: Value,
    r1: Value,
    v1: Value,
    l2: Value,
    r2: Value,
    v2: Value,
)
    requires
        value_applies(op, l1, r1, v1),
        value_applies(op, l2, r2, v2),
        value_equiv(l1, l2),
        value_equiv(r1, r2),
    ensures
        value_equiv(v1, v2),
{
}

/// The value `v` is the raw literal whose text is the number token `tok`.
pub open spec fn is_literal_of(v: Value, tok: TokenModel) -> bool {
    match v {
        Value::Literal(s) => tok == TokenModel::Number(s@),
        Value::Expression(_) => false,
    }
}

} // verus!
