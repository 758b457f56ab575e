//! The evaluator: an operator-precedence stack machine over the token
//! sequence. It keeps a value stack and an operator stack, defers low-
//! precedence operators, resolves one pending high-precedence operator before
//! stacking another, recurses at every opening parenthesis, and drains the
//! pending operators at the end of each scan. The tree it returns is proved to
//! be the left-associative parse of the classic grammar
//! `expr := term (('+'|'-') term)*`, `term := factor (('*'|'/') factor)*`,
//! `factor := number | '(' expr ')'`.

use vstd::prelude::*;

use crate::ast::{
    is_add_or_sub, is_literal_of, is_mul_or_div, is_operator, value_applies, Expression, Token,
    TokenModel, Value,
};

verus! {

/// The token range `[lo, hi)` derives a factor whose tree is `v`: one number
/// token, or a parenthesized expression (the group's tree stands for the whole
/// factor; no extra node marks the parentheses).
pub open spec fn parses_factor(t: Seq<TokenModel>, lo: int, hi: int, v: Value) -> bool
    decreases hi - lo, 0int,
{
    ||| (0 <= lo && hi == lo + 1 && lo < t.len() && is_literal_of(v, t[lo]))
    ||| (0 <= lo && lo + 3 <= hi <= t.len() && t[lo] == TokenModel::LeftParen && t[hi - 1]
        == TokenModel::RightParen && parses_expr(t, lo + 1, hi - 1, v))
}

/// The token range `[lo, hi)` derives a term whose tree is `v`: a factor, or a
/// term times-or-over a factor, so that chains of `*` and `/` associate to the
/// left.
pub open spec fn parses_term(t: Seq<TokenModel>, lo: int, hi: int, v: Value) -> bool
    decreases hi - lo, 1int,
{
    ||| parses_factor(t, lo, hi, v)
    ||| exists|m: int, op: TokenModel, l: Value, r: Value|
        #![trigger t[m], value_applies(op, l, r, v)]
        lo < m < hi && is_mul_or_div(op) && t[m] == op && parses_term(t, lo, m, l)
            && parses_factor(t, m + 1, hi, r) && value_applies(op, l, r, v)
}

/// The token range `[lo, hi)` derives an expression whose tree is `v`: a term,
/// or an expression plus-or-minus a term, so that chains of `+` and `-`
/// associate to the left.
pub open spec fn parses_expr(t: Seq<TokenModel>, lo: int, hi: int, v: Value) -> bool
    decreases hi - lo, 2int,
{
    ||| parses_term(t, lo, hi, v)
    ||| exists|m: int, op: TokenModel, l: Value, r: Value|
        #![trigger t[m], value_applies(op, l, r, v)]
        lo < m < hi && is_add_or_sub(op) && t[m] == op && parses_expr(t, lo, m, l)
            && parses_term(t, m + 1, hi, r) && value_applies(op, l, r, v)
}

/// A new term node joins a term on the left of a `*` or `/` with a factor on
/// its right.
pub proof fn lemma_term_node(
    t: Seq<TokenModel>,
    lo: int,
    m: int,
    hi: int,
    op: TokenModel,
    l: Value,
    r: Value,
    v: Value,
)
    requires
        lo < m < hi,
        is_mul_or_div(op),
        t[m] == op,
        parses_term(t, lo, m, l),
        parses_factor(t, m + 1, hi, r),
        value_applies(op, l, r, v),
    ensures
        parses_term(t, lo, hi, v),
{
}

/// A new expression node joins an expression on the left of a `+` or `-` with
/// a term on its right.
pub proof fn lemma_expr_node(
    t: Seq<TokenModel>,
    lo: int,
    m: int,
    hi: int,
    op: TokenModel,
    l: Value,
    r: Value,
    v: Value,
)
    requires
        lo < m < hi,
        is_add_or_sub(op),
        t[m] == op,
        parses_expr(t, lo, m, l),
        parses_term(t, m + 1, hi, r),
        value_applies(op, l, r, v),
    ensures
        parses_expr(t, lo, hi, v),
{
}

/// A range deriving a factor is never empty and lies within the tokens.
pub proof fn lemma_factor_bounds(t: Seq<TokenModel>, lo: int, hi: int, v: Value)
    requires
        parses_factor(t, lo, hi, v),
    ensures
        0 <= lo < hi <= t.len(),
{
}

/// A range deriving a term is never empty and lies within the tokens.
pub proof fn lemma_term_bounds(t: Seq<TokenModel>, lo: int, hi: int, v: Value)
    requires
        parses_term(t, lo, hi, v),
    ensures
        0 <= lo < hi <= t.len(),
    decreases hi - lo,
{
    if parses_factor(t, lo, hi, v) {
        lemma_factor_bounds(t, lo, hi, v);
    } else {
        let (m, op, l, r) = choose|m: int, op: TokenModel, l: Value, r: Value|
            #![trigger t[m], value_applies(op, l, r, v)]
            lo < m < hi && is_mul_or_div(op) && t[m] == op && parses_term(t, lo, m, l)
                && parses_factor(t, m + 1, hi, r) && value_applies(op, l, r, v);
        lemma_term_bounds(t, lo, m, l);
        lemma_factor_bounds(t, m + 1, hi, r);
    }
}

/// A range deriving an expression is never empty and lies within the tokens.
pub proof fn lemma_expr_bounds(t: Seq<TokenModel>, lo: int, hi: int, v: Value)
    requires
        parses_expr(t, lo, hi, v),
    ensures
        0 <= lo < hi <= t.len(),
    decreases hi - lo,
{
    if parses_term(t, lo, hi, v) {
        lemma_term_bounds(t, lo, hi, v);
    } else {
        let (m, op, l, r) = choose|m: int, op: TokenModel, l: Value, r: Value|
            #![trigger t[m], value_applies(op, l, r, v)]
            lo < m < hi && is_add_or_sub(op) && t[m] == op && parses_expr(t, lo, m, l)
                && parses_term(t, m + 1, hi, r) && value_applies(op, l, r, v);
        lemma_expr_bounds(t, lo, m, l);
        lemma_term_bounds(t, m + 1, hi, r);
    }
}

/// The token sequence from index `i` on is well formed for the stack machine:
/// values and operators alternate, parentheses opened during this scan are
/// matched, and the scan may stop only at the end of the tokens (at relative
/// depth zero, after a value) or at a closing parenthesis of relative depth
/// zero. `after_value` records whether a value was just completed, `depth`
/// counts the parentheses opened and not yet closed since the scan began.
pub open spec fn wf_tokens(t: Seq<TokenModel>, i: int, depth: int, after_value: bool) -> bool
    decreases t.len() - i,
{
    if i < 0 {
        false
    } else if i >= t.len() {
        after_value && depth == 0
    } else {
        match t[i] {
            TokenModel::Number(_) => !after_value && wf_tokens(t, i + 1, depth, true),
            TokenModel::LeftParen => !after_value && wf_tokens(t, i + 1, depth + 1, false),
            TokenModel::RightParen => after_value && (depth == 0 || wf_tokens(
                t,
                i + 1,
                depth - 1,
                true,
            )),
            _ => after_value && wf_tokens(t, i + 1, depth, false),
        }
    }
}

/// Well-formedness at a higher relative depth implies it at any lower one:
/// allowing the scan to stop earlier never hurts.
pub proof fn lemma_wf_depth_mono(
    t: Seq<TokenModel>,
    i: int,
    d1: int,
    d2: int,
    after_value: bool,
)
    requires
        0 <= d2 <= d1,
        wf_tokens(t, i, d1, after_value),
    ensures
        wf_tokens(t, i, d2, after_value),
    decreases t.len() - i,
{
    if 0 <= i < t.len() {
        match t[i] {
            TokenModel::Number(_) => lemma_wf_depth_mono(t, i + 1, d1, d2, true),
            TokenModel::LeftParen => lemma_wf_depth_mono(t, i + 1, d1 + 1, d2 + 1, false),
            TokenModel::RightParen => {
                if d2 > 0 {
                    lemma_wf_depth_mono(t, i + 1, d1 - 1, d2 - 1, true);
                }
            },
            _ => lemma_wf_depth_mono(t, i + 1, d1, d2, false),
        }
    }
}

/// Draining the operator stack `os` (topmost first) over the value stack `vs`
/// leaves the value stack `out`: each step pops one operator and the two
/// topmost values and pushes the combined sub-expression.
pub open spec fn drained(vs: Seq<Value>, os: Seq<TokenModel>, out: Seq<Value>) -> bool
    decreases os.len(),
{
    if os.len() == 0 {
        out == vs
    } else {
        vs.len() >= 2 && exists|w: Value|
            #[trigger] value_applies(os.last(), vs[vs.len() - 2], vs.last(), w) && drained(
                vs.take(vs.len() - 2).push(w),
                os.take(os.len() - 1),
                out,
            )
    }
}

/// Pops the topmost pending operator and the two topmost values and pushes the
/// one combined sub-expression back: one reduction step.
pub fn reduce_once(stack: &mut Vec<Value>, opstack: &mut Vec<Token>)
    requires
        old(opstack)@.len() >= 1,
        old(stack)@.len() >= 2,
        is_operator(old(opstack).deep_view().last()),
    ensures
        final(opstack).deep_view() == old(opstack).deep_view().take(
            old(opstack)@.len() - 1,
        ),
        final(stack)@.len() == old(stack)@.len() - 1,
        final(stack)@ == old(stack)@.take(old(stack)@.len() - 2).push(final(stack)@.last()),
        value_applies(
            old(opstack).deep_view().last(),
            old(stack)@[old(stack)@.len() - 2],
            old(stack)@.last(),
            final(stack)@.last(),
        ),
{
    let op = opstack.pop().unwrap();
    let rv = stack.pop().unwrap();
    let lv = stack.pop().unwrap();
    let node = match op {
        Token::OpAdd => Value::Expression(Box::new(Expression::Add(lv, rv))),
        Token::OpSub => Value::Expression(Box::new(Expression::Sub(lv, rv))),
        Token::OpMul => Value::Expression(Box::new(Expression::Mul(lv, rv))),
        Token::OpDiv => Value::Expression(Box::new(Expression::Div(lv, rv))),
        _ => vstd::pervasive::unreached(),
    };
    stack.push(node);
    proof {
        assert(final(opstack).deep_view() =~= old(opstack).deep_view().take(
            old(opstack)@.len() - 1,
        ));
        assert(final(stack)@ =~= old(stack)@.take(old(stack)@.len() - 2).push(
            final(stack)@.last(),
        ));
    }
}

/// Drains the whole operator stack, topmost first, combining the two topmost
/// values at every step: the full reduction run at an `+`/`-` token and at the
/// end of a scan.
pub fn reduce(stack: &mut Vec<Value>, opstack: &mut Vec<Token>)
    requires
        forall|i: int|
            0 <= i < old(opstack)@.len() ==> is_operator(#[trigger] old(opstack).deep_view()[i]),
        old(opstack)@.len() == 0 || old(stack)@.len() > old(opstack)@.len(),
    ensures
        final(opstack)@.len() == 0,
        drained(old(stack)@, old(opstack).deep_view(), final(stack)@),
{
    while opstack.len() > 0
        invariant
            forall|i: int|
                0 <= i < opstack@.len() ==> is_operator(#[trigger] opstack.deep_view()[i]),
            opstack@.len() == 0 || stack@.len() > opstack@.len(),
            forall|out: Seq<Value>|
                #[trigger] drained(stack@, opstack.deep_view(), out) ==> drained(
                    old(stack)@,
                    old(opstack).deep_view(),
                    out,
                ),
        decreases opstack@.len(),
    {
        let ghost vs = stack@;
        let ghost os = opstack.deep_view();
        reduce_once(stack, opstack);
        proof {
            assert(opstack.deep_view() == os.take(os.len() - 1));
            assert(opstack@.len() == os.len() - 1);
            assert forall|i: int|
                0 <= i < opstack@.len() implies is_operator(
                #[trigger] opstack.deep_view()[i],
            ) by {
                assert(opstack.deep_view()[i] == os.take(os.len() - 1)[i]);
                assert(os.take(os.len() - 1)[i] == os[i]);
            }
            assert forall|out: Seq<Value>|
                #[trigger] drained(stack@, opstack.deep_view(), out) implies drained(
                old(stack)@,
                old(opstack).deep_view(),
                out,
            ) by {
                assert(stack@ == vs.take(vs.len() - 2).push(stack@.last()));
                assert(value_applies(os.last(), vs[vs.len() - 2], vs.last(), stack@.last()));
                assert(drained(vs, os, out));
            }
        }
    }
    proof {
        assert(drained(stack@, opstack.deep_view(), stack@));
    }
}

/// The state of one scan of the stack machine: the tokens consumed since `lo`
/// split into already-parsed pieces held on the value stack `vs`, joined by
/// the deferred operators `os` (at most one `+`/`-` below at most one
/// `*`/`/`). `av` tells whether the piece consumed last was a value.
pub open spec fn machine_inv(
    t: Seq<TokenModel>,
    lo: int,
    p: int,
    vs: Seq<Value>,
    os: Seq<TokenModel>,
    av: bool,
) -> bool {
    if av {
        ||| (os.len() == 0 && vs.len() == 1 && parses_factor(t, lo, p, vs[0]))
        ||| (os.len() == 1 && is_add_or_sub(os[0]) && vs.len() == 2 && exists|i: int|
            #![trigger t[i]]
            lo < i < p && t[i] == os[0] && parses_expr(t, lo, i, vs[0]) && parses_term(
                t,
                i + 1,
                p,
                vs[1],
            ))
        ||| (os.len() == 1 && is_mul_or_div(os[0]) && vs.len() == 2 && exists|j: int|
            #![trigger t[j]]
            lo < j < p && t[j] == os[0] && parses_term(t, lo, j, vs[0]) && parses_factor(
                t,
                j + 1,
                p,
                vs[1],
            ))
        ||| (os.len() == 2 && is_add_or_sub(os[0]) && is_mul_or_div(os[1]) && vs.len() == 3
            && exists|i: int, j: int|
            #![trigger t[i], t[j]]
            lo < i < j < p && t[i] == os[0] && t[j] == os[1] && parses_expr(t, lo, i, vs[0])
                && parses_term(t, i + 1, j, vs[1]) && parses_factor(t, j + 1, p, vs[2]))
    } else {
        ||| (os.len() == 0 && vs.len() == 0 && p == lo)
        ||| (os.len() == 1 && is_add_or_sub(os[0]) && vs.len() == 1 && lo < p - 1 && t[p - 1]
            == os[0] && parses_expr(t, lo, p - 1, vs[0]))
        ||| (os.len() == 1 && is_mul_or_div(os[0]) && vs.len() == 1 && lo < p - 1 && t[p - 1]
            == os[0] && parses_term(t, lo, p - 1, vs[0]))
        ||| (os.len() == 2 && is_add_or_sub(os[0]) && is_mul_or_div(os[1]) && vs.len() == 2 && t[p
            - 1] == os[1] && exists|i: int|
            #![trigger t[i]]
            lo < i < p - 1 && t[i] == os[0] && parses_expr(t, lo, i, vs[0]) && parses_term(
                t,
                i + 1,
                p - 1,
                vs[1],
            ))
    }
}

/// Pushing a factor parsed from `[p, q)` onto the value stack moves the
/// machine from expecting a value to having one.
pub proof fn lemma_machine_push_value(
    t: Seq<TokenModel>,
    lo: int,
    p: int,
    q: int,
    vs: Seq<Value>,
    os: Seq<TokenModel>,
    w: Value,
)
    requires
        machine_inv(t, lo, p, vs, os, false),
        parses_factor(t, p, q, w),
    ensures
        machine_inv(t, lo, q, vs.push(w), os, true),
{
    lemma_factor_bounds(t, p, q, w);
    if os.len() == 0 {
        assert(vs.push(w)[0] == w);
    } else if os.len() == 1 {
        assert(vs.push(w)[0] == vs[0]);
        assert(vs.push(w)[1] == w);
        assert(t[p - 1] == os[0]);
    } else {
        let i = choose|i: int|
            #![trigger t[i]]
            lo < i < p - 1 && t[i] == os[0] && parses_expr(t, lo, i, vs[0]) && parses_term(
                t,
                i + 1,
                p - 1,
                vs[1],
            );
        assert(vs.push(w)[0] == vs[0]);
        assert(vs.push(w)[1] == vs[1]);
        assert(vs.push(w)[2] == w);
        assert(t[p - 1] == os[1]);
        assert(lo < i < p - 1 < q);
    }
}

/// Draining the operator stack from any state that just completed a value
/// leaves exactly one value, the parse of everything consumed since `lo`.
pub proof fn lemma_machine_drain(
    t: Seq<TokenModel>,
    lo: int,
    p: int,
    vs: Seq<Value>,
    os: Seq<TokenModel>,
    out: Seq<Value>,
)
    requires
        machine_inv(t, lo, p, vs, os, true),
        drained(vs, os, out),
    ensures
        out.len() == 1,
        parses_expr(t, lo, p, out[0]),
{
    if os.len() == 0 {
        assert(out == vs);
        assert(parses_term(t, lo, p, vs[0]));
        assert(parses_expr(t, lo, p, vs[0]));
    } else if os.len() == 1 {
        let w = choose|w: Value|
            #[trigger] value_applies(os.last(), vs[vs.len() - 2], vs.last(), w) && drained(
                vs.take(vs.len() - 2).push(w),
                os.take(os.len() - 1),
                out,
            );
        assert(vs.take(0).push(w) =~= seq![w]);
        assert(os.take(0) =~= Seq::<TokenModel>::empty());
        assert(out == seq![w]);
        assert(vs[0] == vs[vs.len() - 2] && vs[1] == vs.last());
        if is_add_or_sub(os[0]) {
            let i = choose|i: int|
                #![trigger t[i]]
                lo < i < p && t[i] == os[0] && parses_expr(t, lo, i, vs[0]) && parses_term(
                    t,
                    i + 1,
                    p,
                    vs[1],
                );
            lemma_expr_node(t, lo, i, p, os[0], vs[0], vs[1], w);
        } else {
            let j = choose|j: int|
                #![trigger t[j]]
                lo < j < p && t[j] == os[0] && parses_term(t, lo, j, vs[0]) && parses_factor(
                    t,
                    j + 1,
                    p,
                    vs[1],
                );
            lemma_term_node(t, lo, j, p, os[0], vs[0], vs[1], w);
            assert(parses_expr(t, lo, p, w));
        }
        assert(out[0] == w);
    } else {
        let (i, j) = choose|i: int, j: int|
            #![trigger t[i], t[j]]
            lo < i < j < p && t[i] == os[0] && t[j] == os[1] && parses_expr(t, lo, i, vs[0])
                && parses_term(t, i + 1, j, vs[1]) && parses_factor(t, j + 1, p, vs[2]);
        let w1 = choose|w: Value|
            #[trigger] value_applies(os.last(), vs[vs.len() - 2], vs.last(), w) && drained(
                vs.take(vs.len() - 2).push(w),
                os.take(os.len() - 1),
                out,
            );
        lemma_term_bounds(t, i + 1, j, vs[1]);
        lemma_term_node(t, i + 1, j, p, os[1], vs[1], vs[2], w1);
        let vs1 = vs.take(1).push(w1);
        let os1 = os.take(1);
        assert(vs1[0] == vs[0] && vs1.len() == 2 && vs1.last() == w1);
        assert(os1.len() == 1 && os1.last() == os[0]);
        assert(drained(vs1, os1, out));
        let w2 = choose|w: Value|
            #[trigger] value_applies(os1.last(), vs1[vs1.len() - 2], vs1.last(), w) && drained(
                vs1.take(vs1.len() - 2).push(w),
                os1.take(os1.len() - 1),
                out,
            );
        assert(vs1.take(0).push(w2) =~= seq![w2]);
        assert(os1.take(0) =~= Seq::<TokenModel>::empty());
        assert(out == seq![w2]);
        lemma_expr_node(t, lo, i, p, os[0], vs[0], w1, w2);
        assert(out[0] == w2);
    }
}

/// Decides whether a whole token sequence is well formed for the stack
/// machine, so that a caller outside the library can test `eval_expression`'s
/// precondition before trusting the tokens to it.
pub fn wf_check(tokens: &Vec<Token>) -> (ok: bool)
    ensures
        ok == wf_tokens(tokens.deep_view(), 0, 0, false),
{
    let ghost t = tokens.deep_view();
    let n: usize = tokens.len();
    let mut i: usize = 0;
    let mut depth: usize = 0;
    let mut after_value: bool = false;
    loop
        invariant
            t == tokens.deep_view(),
            i <= n,
            depth <= i,
            n == t.len(),
            wf_tokens(t, 0, 0, false) == wf_tokens(t, i as int, depth as int, after_value),
        ensures
            i >= n,
            wf_tokens(t, 0, 0, false) == (after_value && depth == 0),
        decreases n - i,
    {
        if i >= n {
            break;
        }
        proof {
            assert(t[i as int] == tokens@[i as int]@);
        }
        match &tokens[i] {
            Token::Number(_) => {
                if after_value {
                    proof {
                        assert(!wf_tokens(t, i as int, depth as int, after_value));
                    }
                    return false;
                }
                after_value = true;
            },
            Token::LeftParen => {
                if after_value {
                    proof {
                        assert(!wf_tokens(t, i as int, depth as int, after_value));
                    }
                    return false;
                }
                depth += 1;
            },
            Token::RightParen => {
                if !after_value || depth == 0 {
                    proof {
                        assert(wf_tokens(t, i as int, depth as int, after_value) == (after_value
                            && depth == 0));
                    }
                    return after_value && depth == 0;
                }
                depth -= 1;
            },
            _ => {
                if !after_value {
                    proof {
                        assert(!wf_tokens(t, i as int, depth as int, after_value));
                    }
                    return false;
                }
                after_value = false;
            },
        }
        i += 1;
    }
    after_value && depth == 0
}

/// Scans tokens from `*pos` until the end of the tokens or an unconsumed `)`
/// (the caller that opened the group advances past it), reducing by operator
/// precedence, and returns the tree of the scanned range: the left-associative
/// parse of `expr := term (('+'|'-') term)*`, `term := factor (('*'|'/')
/// factor)*`, `factor := number | '(' expr ')'`.
pub fn eval_expression(tokens: &Vec<Token>, pos: &mut usize) -> (v: Value)
    requires
        wf_tokens(tokens.deep_view(), *old(pos) as int, 0, false),
    ensures
        *old(pos) <= *final(pos) <= tokens@.len(),
        parses_expr(tokens.deep_view(), *old(pos) as int, *final(pos) as int, v),
        *final(pos) == tokens@.len() || tokens.deep_view()[*final(pos) as int]
            == TokenModel::RightParen,
        forall|d: int|
            0 <= d && wf_tokens(tokens.deep_view(), *old(pos) as int, d, false) ==> (if *final(pos)
                == tokens@.len() {
                d == 0
            } else {
                d == 0 || wf_tokens(tokens.deep_view(), *final(pos) as int + 1, d - 1, true)
            }),
    decreases tokens@.len() - *old(pos),
{
    let ghost t = tokens.deep_view();
    let ghost lo = *old(pos) as int;
    let mut stack: Vec<Value> = Vec::new();
    let mut opstack: Vec<Token> = Vec::new();
    let ghost mut av = false;
    loop
        invariant
            t == tokens.deep_view(),
            lo == *old(pos) as int,
            0 <= lo <= *pos <= tokens@.len(),
            wf_tokens(t, lo, 0, false),
            forall|d: int|
                0 <= d && wf_tokens(t, lo, d, false) ==> wf_tokens(t, *pos as int, d, av),
            machine_inv(t, lo, *pos as int, stack@, opstack.deep_view(), av),
            forall|i: int|
                0 <= i < opstack@.len() ==> is_operator(#[trigger] opstack.deep_view()[i]),
        ensures
            av,
            lo <= *pos <= tokens@.len(),
            *pos as int == t.len() || t[*pos as int] == TokenModel::RightParen,
            machine_inv(t, lo, *pos as int, stack@, opstack.deep_view(), true),
            forall|d: int|
                0 <= d && wf_tokens(t, lo, d, false) ==> wf_tokens(t, *pos as int, d, true),
            forall|i: int|
                0 <= i < opstack@.len() ==> is_operator(#[trigger] opstack.deep_view()[i]),
        decreases tokens@.len() - *pos,
    {
        if *pos >= tokens.len() {
            proof {
                assert(wf_tokens(t, *pos as int, 0, av));
            }
            break;
        }
        let ghost p = *pos as int;
        let ghost vs_pre = stack@;
        let ghost os_pre = opstack.deep_view();
        proof {
            assert(wf_tokens(t, p, 0, av));
            assert(t[p] == tokens@[p]@);
        }
        let tok = &tokens[*pos];
        match tok {
            Token::Number(num) => {
                proof {
                    assert(t[p] == TokenModel::Number(num@));
                    assert(!av);
                }
                stack.push(Value::Literal(num.clone()));
                proof {
                    assert(stack@.last() matches Value::Literal(s) && s@ == num@);
                    assert(is_literal_of(stack@.last(), t[p]));
                    assert(parses_factor(t, p, p + 1, stack@.last()));
                    lemma_machine_push_value(t, lo, p, p + 1, vs_pre, os_pre, stack@.last());
                    assert(vs_pre.push(stack@.last()) =~= stack@);
                    av = true;
                    assert forall|d: int|
                        0 <= d && wf_tokens(t, lo, d, false) implies wf_tokens(
                        t,
                        p + 1,
                        d,
                        true,
                    ) by {
                        assert(wf_tokens(t, p, d, false));
                    }
                }
            },
            Token::OpAdd => {
                proof {
                    assert(av);
                }
                reduce(&mut stack, &mut opstack);
                proof {
                    lemma_machine_drain(t, lo, p, vs_pre, os_pre, stack@);
                    lemma_expr_bounds(t, lo, p, stack@[0]);
                }
                opstack.push(Token::OpAdd);
                proof {
                    assert(opstack.deep_view() =~= seq![TokenModel::OpAdd]);
                    assert(t[p] == TokenModel::OpAdd);
                    av = false;
                    assert(machine_inv(t, lo, p + 1, stack@, opstack.deep_view(), false));
                    assert forall|d: int|
                        0 <= d && wf_tokens(t, lo, d, false) implies wf_tokens(
                        t,
                        p + 1,
                        d,
                        false,
                    ) by {
                        assert(wf_tokens(t, p, d, true));
                    }
                }
            },
            Token::OpSub => {
                proof {
                    assert(av);
                }
                reduce(&mut stack, &mut opstack);
                proof {
                    lemma_machine_drain(t, lo, p, vs_pre, os_pre, stack@);
                    lemma_expr_bounds(t, lo, p, stack@[0]);
                }
                opstack.push(Token::OpSub);
                proof {
                    assert(opstack.deep_view() =~= seq![TokenModel::OpSub]);
                    assert(t[p] == TokenModel::OpSub);
                    av = false;
                    assert(machine_inv(t, lo, p + 1, stack@, opstack.deep_view(), false));
                    assert forall|d: int|
                        0 <= d && wf_tokens(t, lo, d, false) implies wf_tokens(
                        t,
                        p + 1,
                        d,
                        false,
                    ) by {
                        assert(wf_tokens(t, p, d, true));
                    }
                }
            },
            Token::OpMul | Token::OpDiv => {
                let is_mul = matches!(tok, Token::OpMul);
                proof {
                    assert(av);
                    assert(t[p] == (if is_mul {
                        TokenModel::OpMul
                    } else {
                        TokenModel::OpDiv
                    }));
                }
                let mut top_is_md = false;
                if opstack.len() > 0 {
                    match &opstack[opstack.len() - 1] {
                        Token::OpMul | Token::OpDiv => {
                            top_is_md = true;
                        },
                        _ => {},
                    }
                }
                proof {
                    assert(os_pre.len() > 0 ==> os_pre.last() == opstack@[opstack@.len() - 1]@);
                    assert(top_is_md == (os_pre.len() > 0 && is_mul_or_div(os_pre.last())));
                }
                if top_is_md {
                    reduce_once(&mut stack, &mut opstack);
                    proof {
                        if os_pre.len() == 1 {
                            let j = choose|j: int|
                                #![trigger t[j]]
                                lo < j < p && t[j] == os_pre[0] && parses_term(t, lo, j, vs_pre[0])
                                    && parses_factor(t, j + 1, p, vs_pre[1]);
                            lemma_term_node(t, lo, j, p, os_pre[0], vs_pre[0], vs_pre[1], stack@.last());
                            assert(stack@ =~= seq![stack@.last()]);
                            assert(parses_term(t, lo, p, stack@[0]));
                        } else {
                            let (i, j) = choose|i: int, j: int|
                                #![trigger t[i], t[j]]
                                lo < i < j < p && t[i] == os_pre[0] && t[j] == os_pre[1]
                                    && parses_expr(t, lo, i, vs_pre[0]) && parses_term(
                                    t,
                                    i + 1,
                                    j,
                                    vs_pre[1],
                                ) && parses_factor(t, j + 1, p, vs_pre[2]);
                            lemma_term_bounds(t, i + 1, j, vs_pre[1]);
                            lemma_term_node(
                                t,
                                i + 1,
                                j,
                                p,
                                os_pre[1],
                                vs_pre[1],
                                vs_pre[2],
                                stack@.last(),
                            );
                            assert(stack@ =~= seq![vs_pre[0], stack@.last()]);
                            assert(opstack.deep_view() =~= seq![os_pre[0]]);
                            assert(parses_term(t, i + 1, p, stack@[1]));
                        }
                    }
                }
                let ghost os_mid = opstack.deep_view();
                let ghost vs_mid = stack@;
                if is_mul {
                    opstack.push(Token::OpMul);
                } else {
                    opstack.push(Token::OpDiv);
                }
                proof {
                    assert(opstack.deep_view() =~= os_mid.push(t[p]));
                    av = false;
                    if os_mid.len() == 0 {
                        lemma_term_bounds(t, lo, p, vs_mid[0]);
                        assert(machine_inv(t, lo, p + 1, stack@, opstack.deep_view(), false));
                    } else {
                        assert(machine_inv(t, lo, p + 1, stack@, opstack.deep_view(), false));
                    }
                    assert forall|d: int|
                        0 <= d && wf_tokens(t, lo, d, false) implies wf_tokens(
                        t,
                        p + 1,
                        d,
                        false,
                    ) by {
                        assert(wf_tokens(t, p, d, true));
                    }
                }
            },
            Token::LeftParen => {
                proof {
                    assert(t[p] == TokenModel::LeftParen);
                    assert(!av);
                    assert(wf_tokens(t, p + 1, 1, false));
                    lemma_wf_depth_mono(t, p + 1, 1, 0, false);
                }
                *pos += 1;
                let sub = eval_expression(tokens, pos);
                proof {
                    let end = *pos as int;
                    assert(wf_tokens(t, p + 1, 1, false));
                    assert(end < t.len() && t[end] == TokenModel::RightParen);
                    assert(wf_tokens(t, end + 1, 0, true));
                    lemma_expr_bounds(t, p + 1, end, sub);
                    assert(parses_factor(t, p, end + 1, sub));
                    lemma_machine_push_value(t, lo, p, end + 1, vs_pre, os_pre, sub);
                }
                stack.push(sub);
                proof {
                    let end = *pos as int;
                    assert(vs_pre.push(stack@.last()) =~= stack@);
                    av = true;
                    assert forall|d: int|
                        0 <= d && wf_tokens(t, lo, d, false) implies wf_tokens(
                        t,
                        end + 1,
                        d,
                        true,
                    ) by {
                        assert(wf_tokens(t, p, d, false));
                        assert(wf_tokens(t, p + 1, d + 1, false));
                    }
                }
            },
            Token::RightParen => {
                proof {
                    assert(t[p] == TokenModel::RightParen);
                    assert(av);
                }
                break;
            },
        }
        *pos += 1;
    }
    let ghost p_end = *pos as int;
    let ghost vs_fin = stack@;
    let ghost os_fin = opstack.deep_view();
    reduce(&mut stack, &mut opstack);
    proof {
        lemma_machine_drain(t, lo, p_end, vs_fin, os_fin, stack@);
    }
    let result = stack.pop().unwrap();
    proof {
        assert(parses_expr(t, lo, p_end, result));
        assert forall|d: int| 0 <= d && wf_tokens(t, lo, d, false) implies (if p_end == t.len() {
            d == 0
        } else {
            d == 0 || wf_tokens(t, p_end + 1, d - 1, true)
        }) by {
            assert(wf_tokens(t, p_end, d, true));
        }
    }
    result
}


} // verus!
