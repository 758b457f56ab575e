//! Determinism of evaluation: the grammar of expressions, terms and factors
//! is unambiguous, so the token range consumed by one scan and the tree built
//! from it are determined by the tokens alone. Together with the tokenizer
//! being a pure function of the text, re-evaluating the same text can only
//! yield the same result.

use vstd::prelude::*;

use crate::ast::{
    is_add_or_sub, is_mul_or_div, lemma_applies_equiv, value_applies, value_equiv, TokenModel,
    Value,
};
use crate::evaluator::{parses_expr, parses_factor, parses_term};

verus! {

/// What one token contributes to the count of open parentheses.
pub open spec fn paren_delta(tok: TokenModel) -> int {
    match tok {
        TokenModel::LeftParen => 1,
        TokenModel::RightParen => -1,
        _ => 0,
    }
}

/// The parentheses opened and not closed over the token range `[lo, hi)`.
pub open spec fn net_parens(t: Seq<TokenModel>, lo: int, hi: int) -> int
    decreases hi - lo,
{
    if hi <= lo {
        0
    } else {
        net_parens(t, lo, hi - 1) + paren_delta(t[hi - 1])
    }
}

/// The count over a range is the sum of the counts over its two halves.
proof fn lemma_net_split(t: Seq<TokenModel>, lo: int, m: int, hi: int)
    requires
        lo <= m <= hi,
    ensures
        net_parens(t, lo, hi) == net_parens(t, lo, m) + net_parens(t, m, hi),
    decreases hi - m,
{
    if m < hi {
        lemma_net_split(t, lo, m, hi - 1);
    }
}

/// The count over a single token is that token's contribution.
proof fn lemma_net_one(t: Seq<TokenModel>, k: int)
    ensures
        net_parens(t, k, k + 1) == paren_delta(t[k]),
{
    assert(net_parens(t, k, k) == 0);
}

/// A factor's range is balanced, strictly inside it the parenthesis count
/// never returns to zero, and it starts with a number or `(`.
proof fn lemma_factor_shape(t: Seq<TokenModel>, lo: int, hi: int, v: Value)
    requires
        parses_factor(t, lo, hi, v),
    ensures
        net_parens(t, lo, hi) == 0,
        forall|k: int| lo < k < hi ==> net_parens(t, lo, k) >= 1,
        t[lo] matches TokenModel::Number(_) || t[lo] == TokenModel::LeftParen,
    decreases hi - lo, 0int,
{
    if hi == lo + 1 {
        assert(net_parens(t, lo, hi) == net_parens(t, lo, lo) + paren_delta(t[lo]));
    } else {
        lemma_expr_shape(t, lo + 1, hi - 1, v);
        lemma_net_split(t, lo, lo + 1, hi);
        lemma_net_split(t, lo + 1, hi - 1, hi);
        lemma_net_one(t, lo);
        lemma_net_one(t, hi - 1);
        assert(net_parens(t, lo, hi) == 0);
        assert forall|k: int| lo < k < hi implies net_parens(t, lo, k) >= 1 by {
            lemma_net_split(t, lo, lo + 1, k);
            assert(net_parens(t, lo, k) == 1 + net_parens(t, lo + 1, k));
        }
    }
}

/// A term's range is balanced, the count inside never goes negative, no `+` or
/// `-` stands inside at count zero, and it starts with a number or `(`.
proof fn lemma_term_shape(t: Seq<TokenModel>, lo: int, hi: int, v: Value)
    requires
        parses_term(t, lo, hi, v),
    ensures
        net_parens(t, lo, hi) == 0,
        forall|k: int| lo < k < hi ==> net_parens(t, lo, k) >= 0,
        forall|k: int|
            lo < k < hi && net_parens(t, lo, k) == 0 ==> !is_add_or_sub(#[trigger] t[k]),
        t[lo] matches TokenModel::Number(_) || t[lo] == TokenModel::LeftParen,
    decreases hi - lo, 1int,
{
    if parses_factor(t, lo, hi, v) {
        lemma_factor_shape(t, lo, hi, v);
    } else {
        let (m, op, l, r) = choose|m: int, op: TokenModel, l: Value, r: Value|
            #![trigger t[m], value_applies(op, l, r, v)]
            lo < m < hi && is_mul_or_div(op) && t[m] == op && parses_term(t, lo, m, l)
                && parses_factor(t, m + 1, hi, r) && value_applies(op, l, r, v);
        lemma_term_shape(t, lo, m, l);
        lemma_factor_shape(t, m + 1, hi, r);
        lemma_net_split(t, lo, m, hi);
        lemma_net_split(t, m, m + 1, hi);
        lemma_net_one(t, m);
        assert(net_parens(t, lo, hi) == 0);
        assert forall|k: int| lo < k < hi implies net_parens(t, lo, k) >= 0 && (net_parens(
            t,
            lo,
            k,
        ) == 0 ==> !is_add_or_sub(t[k])) by {
            if k < m {
            } else if k == m {
                assert(net_parens(t, lo, m) == 0);
            } else {
                lemma_net_split(t, lo, m + 1, k);
                lemma_net_split(t, lo, m, m + 1);
                lemma_net_one(t, m);
                assert(net_parens(t, lo, m + 1) == 0);
                if k > m + 1 {
                    assert(net_parens(t, lo, k) == net_parens(t, m + 1, k));
                    assert(net_parens(t, m + 1, k) >= 1);
                } else {
                    assert(net_parens(t, lo, k) == 0);
                    assert(t[m + 1] matches TokenModel::Number(_) || t[m + 1]
                        == TokenModel::LeftParen);
                }
            }
        }
    }
}

/// An expression's range is balanced, the count inside never goes negative,
/// and it starts with a number or `(`.
proof fn lemma_expr_shape(t: Seq<TokenModel>, lo: int, hi: int, v: Value)
    requires
        parses_expr(t, lo, hi, v),
    ensures
        net_parens(t, lo, hi) == 0,
        forall|k: int| lo < k < hi ==> net_parens(t, lo, k) >= 0,
        t[lo] matches TokenModel::Number(_) || t[lo] == TokenModel::LeftParen,
    decreases hi - lo, 2int,
{
    if parses_term(t, lo, hi, v) {
        lemma_term_shape(t, lo, hi, v);
    } else {
        let (m, op, l, r) = choose|m: int, op: TokenModel, l: Value, r: Value|
            #![trigger t[m], value_applies(op, l, r, v)]
            lo < m < hi && is_add_or_sub(op) && t[m] == op && parses_expr(t, lo, m, l)
                && parses_term(t, m + 1, hi, r) && value_applies(op, l, r, v);
        lemma_expr_shape(t, lo, m, l);
        lemma_term_shape(t, m + 1, hi, r);
        lemma_net_split(t, lo, m, hi);
        lemma_net_split(t, m, m + 1, hi);
        lemma_net_one(t, m);
        assert(net_parens(t, lo, hi) == 0);
        assert forall|k: int| lo < k < hi implies net_parens(t, lo, k) >= 0 by {
            if k > m {
                lemma_net_split(t, lo, m + 1, k);
                lemma_net_split(t, lo, m, m + 1);
                lemma_net_one(t, m);
                assert(net_parens(t, lo, m + 1) == 0);
                if k > m + 1 {
                    assert(net_parens(t, lo, k) == net_parens(t, m + 1, k));
                }
            } else if k == m {
                assert(net_parens(t, lo, m) == 0);
            }
        }
    }
}

/// Two factors over one range are the same tree up to literal texts.
proof fn lemma_factor_unique(t: Seq<TokenModel>, lo: int, hi: int, v1: Value, v2: Value)
    requires
        parses_factor(t, lo, hi, v1),
        parses_factor(t, lo, hi, v2),
    ensures
        value_equiv(v1, v2),
    decreases hi - lo, 0int,
{
    if hi == lo + 1 {
    } else {
        lemma_expr_unique(t, lo + 1, hi - 1, v1, v2);
    }
}

/// Two terms over one range are the same tree up to literal texts.
proof fn lemma_term_unique(t: Seq<TokenModel>, lo: int, hi: int, v1: Value, v2: Value)
    requires
        parses_term(t, lo, hi, v1),
        parses_term(t, lo, hi, v2),
    ensures
        value_equiv(v1, v2),
    decreases hi - lo, 1int,
{
    if parses_factor(t, lo, hi, v1) && parses_factor(t, lo, hi, v2) {
        lemma_factor_unique(t, lo, hi, v1, v2);
    } else if parses_factor(t, lo, hi, v1) {
        let (m2, op2, l2, r2) = choose|m2: int, op2: TokenModel, l2: Value, r2: Value|
            #![trigger t[m2], value_applies(op2, l2, r2, v2)]
            lo < m2 < hi && is_mul_or_div(op2) && t[m2] == op2 && parses_term(t, lo, m2, l2)
                && parses_factor(t, m2 + 1, hi, r2) && value_applies(op2, l2, r2, v2);
        lemma_term_shape(t, lo, m2, l2);
        lemma_factor_shape(t, lo, hi, v1);
        assert(false);
    } else if parses_factor(t, lo, hi, v2) {
        let (m1, op1, l1, r1) = choose|m1: int, op1: TokenModel, l1: Value, r1: Value|
            #![trigger t[m1], value_applies(op1, l1, r1, v1)]
            lo < m1 < hi && is_mul_or_div(op1) && t[m1] == op1 && parses_term(t, lo, m1, l1)
                && parses_factor(t, m1 + 1, hi, r1) && value_applies(op1, l1, r1, v1);
        lemma_term_shape(t, lo, m1, l1);
        lemma_factor_shape(t, lo, hi, v2);
        assert(false);
    } else {
        let (m1, op1, l1, r1) = choose|m1: int, op1: TokenModel, l1: Value, r1: Value|
            #![trigger t[m1], value_applies(op1, l1, r1, v1)]
            lo < m1 < hi && is_mul_or_div(op1) && t[m1] == op1 && parses_term(t, lo, m1, l1)
                && parses_factor(t, m1 + 1, hi, r1) && value_applies(op1, l1, r1, v1);
        let (m2, op2, l2, r2) = choose|m2: int, op2: TokenModel, l2: Value, r2: Value|
            #![trigger t[m2], value_applies(op2, l2, r2, v2)]
            lo < m2 < hi && is_mul_or_div(op2) && t[m2] == op2 && parses_term(t, lo, m2, l2)
                && parses_factor(t, m2 + 1, hi, r2) && value_applies(op2, l2, r2, v2);
        lemma_split_unique_term(t, lo, hi, m1, l1, r1, m2, l2, r2);
        lemma_term_unique(t, lo, m1, l1, l2);
        lemma_factor_unique(t, m1 + 1, hi, r1, r2);
        lemma_applies_equiv(t[m1], l1, r1, v1, l2, r2, v2);
    }
}

/// Two `*`/`/` split points of one term range coincide.
proof fn lemma_split_unique_term(
    t: Seq<TokenModel>,
    lo: int,
    hi: int,
    m1: int,
    l1: Value,
    r1: Value,
    m2: int,
    l2: Value,
    r2: Value,
)
    requires
        lo < m1 < hi,
        lo < m2 < hi,
        is_mul_or_div(t[m1]),
        is_mul_or_div(t[m2]),
        parses_term(t, lo, m1, l1),
        parses_factor(t, m1 + 1, hi, r1),
        parses_term(t, lo, m2, l2),
        parses_factor(t, m2 + 1, hi, r2),
    ensures
        m1 == m2,
{
    if m1 < m2 {
        lemma_term_shape(t, lo, m2, l2);
        lemma_split_after_term(t, lo, hi, m1, l1, r1, m2);
    } else if m2 < m1 {
        lemma_term_shape(t, lo, m1, l1);
        lemma_split_after_term(t, lo, hi, m2, l2, r2, m1);
    }
}

/// No operator at parenthesis count zero lies to the right of a term split:
/// the factor on the right neither starts with an operator nor holds one at
/// count zero, so any such position is at or before the split.
proof fn lemma_split_after_term(
    t: Seq<TokenModel>,
    lo: int,
    hi: int,
    m1: int,
    l1: Value,
    r1: Value,
    m2: int,
)
    requires
        lo < m1 < hi,
        lo < m2 < hi,
        is_mul_or_div(t[m1]),
        is_mul_or_div(t[m2]) || is_add_or_sub(t[m2]),
        parses_term(t, lo, m1, l1),
        parses_factor(t, m1 + 1, hi, r1),
        net_parens(t, lo, m2) == 0,
    ensures
        m2 <= m1,
{
    lemma_factor_shape(t, m1 + 1, hi, r1);
    lemma_term_shape(t, lo, m1, l1);
    if m2 == m1 + 1 {
        assert(t[m1 + 1] matches TokenModel::Number(_) || t[m1 + 1] == TokenModel::LeftParen);
        assert(false);
    } else if m2 > m1 + 1 {
        lemma_net_split(t, lo, m1 + 1, m2);
        lemma_net_split(t, lo, m1, m1 + 1);
        lemma_net_one(t, m1);
        assert(net_parens(t, lo, m1 + 1) == 0);
        assert(net_parens(t, m1 + 1, m2) >= 1);
        assert(false);
    }
}

/// Two `+`/`-` split points of one expression range coincide.
proof fn lemma_split_unique_expr(
    t: Seq<TokenModel>,
    lo: int,
    hi: int,
    m1: int,
    l1: Value,
    r1: Value,
    m2: int,
    l2: Value,
    r2: Value,
)
    requires
        lo < m1 < hi,
        lo < m2 < hi,
        is_add_or_sub(t[m1]),
        is_add_or_sub(t[m2]),
        parses_expr(t, lo, m1, l1),
        parses_term(t, m1 + 1, hi, r1),
        parses_expr(t, lo, m2, l2),
        parses_term(t, m2 + 1, hi, r2),
    ensures
        m1 == m2,
{
    if m1 < m2 {
        lemma_split_after_expr(t, lo, hi, m1, l1, r1, m2);
        lemma_expr_shape(t, lo, m2, l2);
        assert(false);
    } else if m2 < m1 {
        lemma_split_after_expr(t, lo, hi, m2, l2, r2, m1);
        lemma_expr_shape(t, lo, m1, l1);
        assert(false);
    }
}

/// No `+` or `-` at parenthesis count zero lies strictly to the right of an
/// expression split: the term on the right neither starts with an operator
/// nor holds a count-zero `+`/`-`.
proof fn lemma_split_after_expr(
    t: Seq<TokenModel>,
    lo: int,
    hi: int,
    m1: int,
    l1: Value,
    r1: Value,
    m2: int,
)
    requires
        lo < m1 < m2 < hi,
        is_add_or_sub(t[m1]),
        is_add_or_sub(t[m2]),
        parses_expr(t, lo, m1, l1),
        parses_term(t, m1 + 1, hi, r1),
    ensures
        net_parens(t, lo, m2) != 0,
{
    lemma_term_shape(t, m1 + 1, hi, r1);
    lemma_expr_shape(t, lo, m1, l1);
    lemma_net_split(t, lo, m1, m1 + 1);
    lemma_net_one(t, m1);
    assert(net_parens(t, lo, m1 + 1) == 0);
    if m2 == m1 + 1 {
        assert(t[m1 + 1] matches TokenModel::Number(_) || t[m1 + 1] == TokenModel::LeftParen);
    } else {
        lemma_net_split(t, lo, m1 + 1, m2);
        if net_parens(t, lo, m2) == 0 {
            assert(net_parens(t, m1 + 1, m2) == 0);
            assert(!is_add_or_sub(t[m2]));
        }
    }
}

/// Two expressions over one range are the same tree up to literal texts.
proof fn lemma_expr_unique(t: Seq<TokenModel>, lo: int, hi: int, v1: Value, v2: Value)
    requires
        parses_expr(t, lo, hi, v1),
        parses_expr(t, lo, hi, v2),
    ensures
        value_equiv(v1, v2),
    decreases hi - lo, 2int,
{
    if parses_term(t, lo, hi, v1) && parses_term(t, lo, hi, v2) {
        lemma_term_unique(t, lo, hi, v1, v2);
    } else if parses_term(t, lo, hi, v1) {
        let (m2, op2, l2, r2) = choose|m2: int, op2: TokenModel, l2: Value, r2: Value|
            #![trigger t[m2], value_applies(op2, l2, r2, v2)]
            lo < m2 < hi && is_add_or_sub(op2) && t[m2] == op2 && parses_expr(t, lo, m2, l2)
                && parses_term(t, m2 + 1, hi, r2) && value_applies(op2, l2, r2, v2);
        lemma_expr_shape(t, lo, m2, l2);
        lemma_term_shape(t, lo, hi, v1);
        assert(false);
    } else if parses_term(t, lo, hi, v2) {
        let (m1, op1, l1, r1) = choose|m1: int, op1: TokenModel, l1: Value, r1: Value|
            #![trigger t[m1], value_applies(op1, l1, r1, v1)]
            lo < m1 < hi && is_add_or_sub(op1) && t[m1] == op1 && parses_expr(t, lo, m1, l1)
                && parses_term(t, m1 + 1, hi, r1) && value_applies(op1, l1, r1, v1);
        lemma_expr_shape(t, lo, m1, l1);
        lemma_term_shape(t, lo, hi, v2);
        assert(false);
    } else {
        let (m1, op1, l1, r1) = choose|m1: int, op1: TokenModel, l1: Value, r1: Value|
            #![trigger t[m1], value_applies(op1, l1, r1, v1)]
            lo < m1 < hi && is_add_or_sub(op1) && t[m1] == op1 && parses_expr(t, lo, m1, l1)
                && parses_term(t, m1 + 1, hi, r1) && value_applies(op1, l1, r1, v1);
        let (m2, op2, l2, r2) = choose|m2: int, op2: TokenModel, l2: Value, r2: Value|
            #![trigger t[m2], value_applies(op2, l2, r2, v2)]
            lo < m2 < hi && is_add_or_sub(op2) && t[m2] == op2 && parses_expr(t, lo, m2, l2)
                && parses_term(t, m2 + 1, hi, r2) && value_applies(op2, l2, r2, v2);
        lemma_split_unique_expr(t, lo, hi, m1, l1, r1, m2, l2, r2);
        lemma_expr_unique(t, lo, m1, l1, l2);
        lemma_term_unique(t, m1 + 1, hi, r1, r2);
        lemma_applies_equiv(t[m1], l1, r1, v1, l2, r2, v2);
    }
}

/// Two scans from one starting point that both end at a stopping place (the
/// end of the tokens, or a closing parenthesis) end at the same place.
pub proof fn lemma_stop_unique(
    t: Seq<TokenModel>,
    lo: int,
    h1: int,
    h2: int,
    v1: Value,
    v2: Value,
)
    requires
        parses_expr(t, lo, h1, v1),
        parses_expr(t, lo, h2, v2),
        h1 == t.len() || t[h1] == TokenModel::RightParen,
        h2 == t.len() || t[h2] == TokenModel::RightParen,
    ensures
        h1 == h2,
{
    if h1 < h2 {
        lemma_stop_ordered(t, lo, h1, h2, v1, v2);
    } else if h2 < h1 {
        lemma_stop_ordered(t, lo, h2, h1, v2, v1);
    }
}

/// A closing parenthesis at count zero cannot stand inside an expression, so
/// no stopping place precedes another over the same start.
proof fn lemma_stop_ordered(t: Seq<TokenModel>, lo: int, h1: int, h2: int, v1: Value, v2: Value)
    requires
        parses_expr(t, lo, h1, v1),
        parses_expr(t, lo, h2, v2),
        h1 < h2,
        h1 == t.len() || t[h1] == TokenModel::RightParen,
    ensures
        h1 >= h2,
{
    crate::evaluator::lemma_expr_bounds(t, lo, h2, v2);
    crate::evaluator::lemma_expr_bounds(t, lo, h1, v1);
    assert(t[h1] == TokenModel::RightParen);
    lemma_expr_shape(t, lo, h1, v1);
    lemma_expr_shape(t, lo, h2, v2);
    lemma_net_split(t, lo, h1, h1 + 1);
    lemma_net_one(t, h1);
    assert(net_parens(t, lo, h1 + 1) == net_parens(t, lo, h1) - 1);
    if h1 + 1 == h2 {
        assert(net_parens(t, lo, h2) == -1);
    } else {
        assert(net_parens(t, lo, h1 + 1) >= 0);
    }
    assert(false);
}

/// Evaluation has no hidden state: two scans of the same tokens from the same
/// starting point, each ending at a stopping place as the evaluator does, end
/// at the same place and build the same tree up to the texts of their
/// literals. Re-evaluating the same text therefore yields identical results.
pub proof fn lemma_evaluation_deterministic(
    t: Seq<TokenModel>,
    lo: int,
    h1: int,
    h2: int,
    v1: Value,
    v2: Value,
)
    requires
        parses_expr(t, lo, h1, v1),
        parses_expr(t, lo, h2, v2),
        h1 == t.len() || t[h1] == TokenModel::RightParen,
        h2 == t.len() || t[h2] == TokenModel::RightParen,
    ensures
        h1 == h2,
        value_equiv(v1, v2),
{
    lemma_stop_unique(t, lo, h1, h2, v1, v2);
    lemma_expr_unique(t, lo, h1, v1, v2);
}

} // verus!
