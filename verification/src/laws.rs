//! General properties of the library, stated and proved against the tokenizer
//! and evaluator contracts: a bare number evaluates to itself, operators of
//! equal precedence associate to the left, `*` and `/` bind tighter than `+`
//! and `-`, and tokenization has no hidden state.

use vstd::prelude::*;

use crate::ast::{is_add_or_sub, is_literal_of, is_mul_or_div, value_applies, TokenModel, Value};
use crate::evaluator::{lemma_expr_bounds, parses_expr, parses_factor, parses_term};
use crate::tokenizer::{is_digit, number_run_end, spec_tokenize, spec_tokenize_at};

verus! {

/// A run of digits reaches the end of the text.
proof fn lemma_digit_run_whole(s: Seq<char>, i: int)
    requires
        0 <= i <= s.len(),
        forall|k: int| i <= k < s.len() ==> is_digit(#[trigger] s[k]),
    ensures
        number_run_end(s, i) == s.len(),
    decreases s.len() - i,
{
    if i < s.len() {
        lemma_digit_run_whole(s, i + 1);
    }
}

/// A text of digits alone becomes exactly one number token holding that text.
pub proof fn lemma_digits_tokenize_to_one_number(s: Seq<char>)
    requires
        s.len() > 0,
        forall|k: int| 0 <= k < s.len() ==> is_digit(#[trigger] s[k]),
    ensures
        spec_tokenize(s) =~= seq![TokenModel::Number(s)],
{
    lemma_digit_run_whole(s, 0);
    assert(spec_tokenize_at(s, 0, false) == seq![TokenModel::Number(s.subrange(0, s.len() as int))]
        + spec_tokenize_at(s, s.len() as int, true));
    assert(s.subrange(0, s.len() as int) =~= s);
    assert(spec_tokenize_at(s, s.len() as int, true) =~= Seq::<TokenModel>::empty());
}

/// Over a token range holding neither a `*`, a `/`, nor an opening
/// parenthesis, a term can only be a single number token.
proof fn lemma_flat_term(t: Seq<TokenModel>, a: int, b: int, w: Value)
    requires
        parses_term(t, a, b, w),
        forall|k: int| a <= k < b ==> !is_mul_or_div(#[trigger] t[k]),
        forall|k: int| a <= k < b ==> #[trigger] t[k] != TokenModel::LeftParen,
    ensures
        b == a + 1,
        is_literal_of(w, t[a]),
{
    if parses_factor(t, a, b, w) {
        assert(b == a + 1);
    } else {
        let (m, op, l, r) = choose|m: int, op: TokenModel, l: Value, r: Value|
            #![trigger t[m], value_applies(op, l, r, w)]
            a < m < b && is_mul_or_div(op) && t[m] == op && parses_term(t, a, m, l)
                && parses_factor(t, m + 1, b, r) && value_applies(op, l, r, w);
        assert(!is_mul_or_div(t[m]));
        assert(false);
    }
}

/// A single number token evaluates to the literal holding its text.
pub proof fn lemma_single_number(t: Seq<TokenModel>, v: Value)
    requires
        t.len() == 1,
        t[0] matches TokenModel::Number(_),
        parses_expr(t, 0, 1, v),
    ensures
        is_literal_of(v, t[0]),
{
    if parses_term(t, 0, 1, v) {
        lemma_flat_term(t, 0, 1, v);
    } else {
        let (m, op, l, r) = choose|m: int, op: TokenModel, l: Value, r: Value|
            #![trigger t[m], value_applies(op, l, r, v)]
            0 < m < 1 && is_add_or_sub(op) && t[m] == op && parses_expr(t, 0, m, l)
                && parses_term(t, m + 1, 1, r) && value_applies(op, l, r, v);
        assert(false);
    }
}

/// A text that is one unsigned integer literal evaluates to the literal
/// holding exactly that text: the whole pipeline, from characters to tree.
pub proof fn lemma_integer_literal_round_trip(
    s: Seq<char>,
    toks: Seq<TokenModel>,
    v: Value,
    end: int,
)
    requires
        s.len() > 0,
        forall|k: int| 0 <= k < s.len() ==> is_digit(#[trigger] s[k]),
        toks == spec_tokenize(s),
        parses_expr(toks, 0, end, v),
        end == toks.len() || toks[end] == TokenModel::RightParen,
    ensures
        end == 1,
        v matches Value::Literal(txt) && txt@ == s,
{
    lemma_digits_tokenize_to_one_number(s);
    assert(toks =~= seq![TokenModel::Number(s)]);
    lemma_expr_bounds(toks, 0, end, v);
    lemma_single_number(toks, v);
}

/// A range of one token evaluates to the literal holding that token's text.
proof fn lemma_unit_expr(t: Seq<TokenModel>, a: int, w: Value)
    requires
        parses_expr(t, a, a + 1, w),
    ensures
        is_literal_of(w, t[a]),
{
    if parses_term(t, a, a + 1, w) {
        if parses_factor(t, a, a + 1, w) {
        } else {
            let (m, op, l, r) = choose|m: int, op: TokenModel, l: Value, r: Value|
                #![trigger t[m], value_applies(op, l, r, w)]
                a < m < a + 1 && is_mul_or_div(op) && t[m] == op && parses_term(t, a, m, l)
                    && parses_factor(t, m + 1, a + 1, r) && value_applies(op, l, r, w);
            assert(false);
        }
    } else {
        let (m, op, l, r) = choose|m: int, op: TokenModel, l: Value, r: Value|
            #![trigger t[m], value_applies(op, l, r, w)]
            a < m < a + 1 && is_add_or_sub(op) && t[m] == op && parses_expr(t, a, m, l)
                && parses_term(t, m + 1, a + 1, r) && value_applies(op, l, r, w);
        assert(false);
    }
}

/// Left-to-right associativity at equal precedence: a chain of three numbers
/// joined by two `+`/`-` operators parses with the earlier operator applied
/// first, as `(a op1 b) op2 c`.
pub proof fn lemma_addsub_left_assoc(t: Seq<TokenModel>, v: Value)
    requires
        t.len() == 5,
        t[0] matches TokenModel::Number(_),
        t[2] matches TokenModel::Number(_),
        t[4] matches TokenModel::Number(_),
        is_add_or_sub(t[1]),
        is_add_or_sub(t[3]),
        parses_expr(t, 0, 5, v),
    ensures
        exists|u: Value, a: Value, b: Value, c: Value|
            #![trigger value_applies(t[3], u, c, v), value_applies(t[1], a, b, u)]
            value_applies(t[3], u, c, v) && value_applies(t[1], a, b, u) && is_literal_of(a, t[0])
                && is_literal_of(b, t[2]) && is_literal_of(c, t[4]),
{
    assert forall|k: int| 0 <= k < 5 implies !is_mul_or_div(#[trigger] t[k]) && t[k]
        != TokenModel::LeftParen by {
        assert(k == 0 || k == 1 || k == 2 || k == 3 || k == 4);
    }
    if parses_term(t, 0, 5, v) {
        lemma_flat_term(t, 0, 5, v);
        assert(false);
    }
    let (m, op, l, r) = choose|m: int, op: TokenModel, l: Value, r: Value|
        #![trigger t[m], value_applies(op, l, r, v)]
        0 < m < 5 && is_add_or_sub(op) && t[m] == op && parses_expr(t, 0, m, l) && parses_term(
            t,
            m + 1,
            5,
            r,
        ) && value_applies(op, l, r, v);
    lemma_flat_term(t, m + 1, 5, r);
    assert(m == 3);
    if parses_term(t, 0, 3, l) {
        lemma_flat_term(t, 0, 3, l);
        assert(false);
    }
    let (m2, op2, a, b) = choose|m2: int, op2: TokenModel, a: Value, b: Value|
        #![trigger t[m2], value_applies(op2, a, b, l)]
        0 < m2 < 3 && is_add_or_sub(op2) && t[m2] == op2 && parses_expr(t, 0, m2, a)
            && parses_term(t, m2 + 1, 3, b) && value_applies(op2, a, b, l);
    lemma_flat_term(t, m2 + 1, 3, b);
    assert(m2 == 1);
    lemma_unit_expr(t, 0, a);
    assert(value_applies(t[3], l, r, v) && value_applies(t[1], a, b, l));
}

/// Left-to-right associativity at equal precedence: a chain of three numbers
/// joined by two `*`/`/` operators parses with the earlier operator applied
/// first, as `(a op1 b) op2 c`.
pub proof fn lemma_muldiv_left_assoc(t: Seq<TokenModel>, v: Value)
    requires
        t.len() == 5,
        t[0] matches TokenModel::Number(_),
        t[2] matches TokenModel::Number(_),
        t[4] matches TokenModel::Number(_),
        is_mul_or_div(t[1]),
        is_mul_or_div(t[3]),
        parses_expr(t, 0, 5, v),
    ensures
        exists|u: Value, a: Value, b: Value, c: Value|
            #![trigger value_applies(t[3], u, c, v), value_applies(t[1], a, b, u)]
            value_applies(t[3], u, c, v) && value_applies(t[1], a, b, u) && is_literal_of(a, t[0])
                && is_literal_of(b, t[2]) && is_literal_of(c, t[4]),
{
    if !parses_term(t, 0, 5, v) {
        let (m, op, l, r) = choose|m: int, op: TokenModel, l: Value, r: Value|
            #![trigger t[m], value_applies(op, l, r, v)]
            0 < m < 5 && is_add_or_sub(op) && t[m] == op && parses_expr(t, 0, m, l) && parses_term(
                t,
                m + 1,
                5,
                r,
            ) && value_applies(op, l, r, v);
        assert(m == 1 || m == 2 || m == 3 || m == 4);
        assert(false);
    }
    assert(!parses_factor(t, 0, 5, v));
    let (m, op, l, r) = choose|m: int, op: TokenModel, l: Value, r: Value|
        #![trigger t[m], value_applies(op, l, r, v)]
        0 < m < 5 && is_mul_or_div(op) && t[m] == op && parses_term(t, 0, m, l) && parses_factor(
            t,
            m + 1,
            5,
            r,
        ) && value_applies(op, l, r, v);
    assert(m == 1 || m == 2 || m == 3 || m == 4);
    if m == 1 {
        assert(!parses_factor(t, 2, 5, r));
        assert(false);
    }
    assert(m == 3);
    assert(is_literal_of(r, t[4]));
    if parses_factor(t, 0, 3, l) {
        assert(false);
    }
    let (m2, op2, a, b) = choose|m2: int, op2: TokenModel, a: Value, b: Value|
        #![trigger t[m2], value_applies(op2, a, b, l)]
        0 < m2 < 3 && is_mul_or_div(op2) && t[m2] == op2 && parses_term(t, 0, m2, a)
            && parses_factor(t, m2 + 1, 3, b) && value_applies(op2, a, b, l);
    assert(m2 == 1);
    lemma_flat_term(t, 0, 1, a);
    assert(is_literal_of(b, t[2]));
    assert(value_applies(t[3], l, r, v) && value_applies(t[1], a, b, l));
}

/// Precedence with the tighter operator first: `a op1 b op2 c` with `op1` a
/// `*`/`/` and `op2` a `+`/`-` parses as `(a op1 b) op2 c`.
pub proof fn lemma_muldiv_binds_first_on_left(t: Seq<TokenModel>, v: Value)
    requires
        t.len() == 5,
        t[0] matches TokenModel::Number(_),
        t[2] matches TokenModel::Number(_),
        t[4] matches TokenModel::Number(_),
        is_mul_or_div(t[1]),
        is_add_or_sub(t[3]),
        parses_expr(t, 0, 5, v),
    ensures
        exists|u: Value, a: Value, b: Value, c: Value|
            #![trigger value_applies(t[3], u, c, v), value_applies(t[1], a, b, u)]
            value_applies(t[3], u, c, v) && value_applies(t[1], a, b, u) && is_literal_of(a, t[0])
                && is_literal_of(b, t[2]) && is_literal_of(c, t[4]),
{
    if parses_term(t, 0, 5, v) {
        if !parses_factor(t, 0, 5, v) {
            let (m, op, l, r) = choose|m: int, op: TokenModel, l: Value, r: Value|
                #![trigger t[m], value_applies(op, l, r, v)]
                0 < m < 5 && is_mul_or_div(op) && t[m] == op && parses_term(t, 0, m, l)
                    && parses_factor(t, m + 1, 5, r) && value_applies(op, l, r, v);
            assert(m == 1 || m == 2 || m == 3 || m == 4);
            assert(m == 1);
            assert(!parses_factor(t, 2, 5, r));
        }
        assert(false);
    }
    let (m, op, l, r) = choose|m: int, op: TokenModel, l: Value, r: Value|
        #![trigger t[m], value_applies(op, l, r, v)]
        0 < m < 5 && is_add_or_sub(op) && t[m] == op && parses_expr(t, 0, m, l) && parses_term(
            t,
            m + 1,
            5,
            r,
        ) && value_applies(op, l, r, v);
    assert(m == 1 || m == 2 || m == 3 || m == 4);
    assert(m == 3);
    lemma_flat_term(t, 4, 5, r);
    if parses_term(t, 0, 3, l) {
        if parses_factor(t, 0, 3, l) {
            assert(false);
        }
        let (m2, op2, a, b) = choose|m2: int, op2: TokenModel, a: Value, b: Value|
            #![trigger t[m2], value_applies(op2, a, b, l)]
            0 < m2 < 3 && is_mul_or_div(op2) && t[m2] == op2 && parses_term(t, 0, m2, a)
                && parses_factor(t, m2 + 1, 3, b) && value_applies(op2, a, b, l);
        assert(m2 == 1);
        lemma_flat_term(t, 0, 1, a);
        assert(is_literal_of(b, t[2]));
        assert(value_applies(t[3], l, r, v) && value_applies(t[1], a, b, l));
    } else {
        let (m3, op3, a3, b3) = choose|m3: int, op3: TokenModel, a3: Value, b3: Value|
            #![trigger t[m3], value_applies(op3, a3, b3, l)]
            0 < m3 < 3 && is_add_or_sub(op3) && t[m3] == op3 && parses_expr(t, 0, m3, a3)
                && parses_term(t, m3 + 1, 3, b3) && value_applies(op3, a3, b3, l);
        assert(m3 == 1 || m3 == 2);
        assert(false);
    }
}

/// Precedence with the tighter operator last: `a op1 b op2 c` with `op1` a
/// `+`/`-` and `op2` a `*`/`/` parses as `a op1 (b op2 c)`.
pub proof fn lemma_muldiv_binds_first_on_right(t: Seq<TokenModel>, v: Value)
    requires
        t.len() == 5,
        t[0] matches TokenModel::Number(_),
        t[2] matches TokenModel::Number(_),
        t[4] matches TokenModel::Number(_),
        is_add_or_sub(t[1]),
        is_mul_or_div(t[3]),
        parses_expr(t, 0, 5, v),
    ensures
        exists|u: Value, a: Value, b: Value, c: Value|
            #![trigger value_applies(t[1], a, u, v), value_applies(t[3], b, c, u)]
            value_applies(t[1], a, u, v) && value_applies(t[3], b, c, u) && is_literal_of(a, t[0])
                && is_literal_of(b, t[2]) && is_literal_of(c, t[4]),
{
    if parses_term(t, 0, 5, v) {
        if !parses_factor(t, 0, 5, v) {
            let (m, op, l, r) = choose|m: int, op: TokenModel, l: Value, r: Value|
                #![trigger t[m], value_applies(op, l, r, v)]
                0 < m < 5 && is_mul_or_div(op) && t[m] == op && parses_term(t, 0, m, l)
                    && parses_factor(t, m + 1, 5, r) && value_applies(op, l, r, v);
            assert(m == 1 || m == 2 || m == 3 || m == 4);
            assert(m == 3);
            lemma_flat_term(t, 0, 3, l);
        }
        assert(false);
    }
    let (m, op, a, r) = choose|m: int, op: TokenModel, a: Value, r: Value|
        #![trigger t[m], value_applies(op, a, r, v)]
        0 < m < 5 && is_add_or_sub(op) && t[m] == op && parses_expr(t, 0, m, a) && parses_term(
            t,
            m + 1,
            5,
            r,
        ) && value_applies(op, a, r, v);
    assert(m == 1 || m == 2 || m == 3 || m == 4);
    assert(m == 1);
    lemma_unit_expr(t, 0, a);
    if parses_factor(t, 2, 5, r) {
        assert(false);
    }
    let (m2, op2, b, c) = choose|m2: int, op2: TokenModel, b: Value, c: Value|
        #![trigger t[m2], value_applies(op2, b, c, r)]
        2 < m2 < 5 && is_mul_or_div(op2) && t[m2] == op2 && parses_term(t, 2, m2, b)
            && parses_factor(t, m2 + 1, 5, c) && value_applies(op2, b, c, r);
    assert(m2 == 3 || m2 == 4);
    assert(m2 == 3);
    lemma_flat_term(t, 2, 3, b);
    assert(is_literal_of(c, t[4]));
    assert(value_applies(t[1], a, r, v) && value_applies(t[3], b, c, r));
}

/// Tokenizing is a pure function of the text: two runs over equal texts
/// produce equal token sequences, with no hidden state in between.
pub proof fn lemma_tokenize_repeatable(
    first: Seq<TokenModel>,
    second: Seq<TokenModel>,
    s: Seq<char>,
)
    requires
        first == spec_tokenize(s),
        second == spec_tokenize(s),
    ensures
        first == second,
{
}

} // verus!
