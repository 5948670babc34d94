//! Expression trees, and what the conversion to postfix order does with the
//! infix text of one.
use vstd::prelude::*;

use crate::shunting_yard::{
    close_group,
    convert_step,
    convert_tokens,
    drain,
    pop_binding,
    postfix_of,
    precedence_of,
};
use crate::tokenizer::TokenModel;

verus! {

/// An arithmetic expression as a tree. `Group` is a parenthesised
/// subexpression; the operator of a `Binary` node is one of the four binary
/// operator tokens.
pub enum Expr {
    Number(Seq<char>),
    Binary(Box<Expr>, TokenModel, Box<Expr>),
    Group(Box<Expr>),
}

pub open spec fn is_operator(t: TokenModel) -> bool {
    ||| t == TokenModel::Plus
    ||| t == TokenModel::Minus
    ||| t == TokenModel::Multiply
    ||| t == TokenModel::Divide
}

/// How tightly the top level of `e` binds: the precedence of its operator,
/// or more than any operator for a number or a group.
pub open spec fn binding(e: Expr) -> nat {
    match e {
        Expr::Binary(_, op, _) => precedence_of(op),
        _ => 4,
    }
}

/// Whether writing `e` out in infix order reads back as `e`: a left operand
/// binds at least as tightly as its operator (operators of equal precedence
/// group to the left), a right operand strictly more tightly.
pub open spec fn well_formed(e: Expr) -> bool
    decreases e,
{
    match e {
        Expr::Number(_) => true,
        Expr::Binary(l, op, r) => {
            &&& is_operator(op)
            &&& binding(*l) >= precedence_of(op)
            &&& binding(*r) > precedence_of(op)
            &&& well_formed(*l)
            &&& well_formed(*r)
        },
        Expr::Group(inner) => well_formed(*inner),
    }
}

/// The tokens of `e` in infix order.
pub open spec fn infix(e: Expr) -> Seq<TokenModel>
    decreases e,
{
    match e {
        Expr::Number(lit) => seq![TokenModel::Number(lit)],
        Expr::Binary(l, op, r) => infix(*l) + seq![op] + infix(*r),
        Expr::Group(inner) => seq![TokenModel::LParen] + infix(*inner) + seq![TokenModel::RParen],
    }
}

/// The tokens of `e` in postfix order: each operator after both operands.
pub open spec fn postfix(e: Expr) -> Seq<TokenModel>
    decreases e,
{
    match e {
        Expr::Number(lit) => seq![TokenModel::Number(lit)],
        Expr::Binary(l, op, r) => postfix(*l) + postfix(*r) + seq![op],
        Expr::Group(inner) => postfix(*inner),
    }
}

/// The operators of `e` still waiting on the stack once its infix tokens
/// have been read, bottom first.
pub open spec fn pending(e: Expr) -> Seq<TokenModel>
    decreases e,
{
    match e {
        Expr::Binary(_, op, r) => seq![op] + pending(*r),
        _ => seq![],
    }
}

/// What the conversion has written out once the infix tokens of `e` have
/// been read.
pub open spec fn emitted(e: Expr) -> Seq<TokenModel>
    decreases e,
{
    match e {
        Expr::Number(lit) => seq![TokenModel::Number(lit)],
        Expr::Binary(l, _, r) => postfix(*l) + emitted(*r),
        Expr::Group(inner) => postfix(*inner),
    }
}

/// A sequence taken from its last element to its first.
pub open spec fn flip(s: Seq<TokenModel>) -> Seq<TokenModel>
    decreases s.len(),
{
    if s.len() == 0 {
        seq![]
    } else {
        seq![s.last()] + flip(s.drop_last())
    }
}

/// Whether the top of `stack` holds against an operator of precedence `p`:
/// it is empty, an opening parenthesis, or binds less tightly.
pub open spec fn guards(stack: Seq<TokenModel>, p: nat) -> bool {
    stack.len() == 0 || stack.last() == TokenModel::LParen || precedence_of(stack.last()) < p
}

/// Whether every element of `s` is an operator of precedence at least `p`.
pub open spec fn operators_from(s: Seq<TokenModel>, p: nat) -> bool {
    forall|k: int| 0 <= k < s.len() ==> is_operator(#[trigger] s[k]) && precedence_of(s[k]) >= p
}

/// The conversion state after `ts`, starting from `st`.
pub open spec fn run_from(
    st: Option<(Seq<TokenModel>, Seq<TokenModel>)>,
    ts: Seq<TokenModel>,
) -> Option<(Seq<TokenModel>, Seq<TokenModel>)>
    decreases ts.len(),
{
    if ts.len() == 0 {
        st
    } else {
        run_from(convert_step(st, ts[0]), ts.drop_first())
    }
}

proof fn lemma_run_from_push(
    st: Option<(Seq<TokenModel>, Seq<TokenModel>)>,
    ts: Seq<TokenModel>,
    t: TokenModel,
)
    ensures
        run_from(st, ts.push(t)) == convert_step(run_from(st, ts), t),
    decreases ts.len(),
{
    if ts.len() == 0 {
        assert(ts.push(t)[0] == t);
        assert(ts.push(t).drop_first() =~= seq![]);
        assert(run_from(convert_step(st, t), Seq::<TokenModel>::empty()) == convert_step(st, t));
    } else {
        assert(ts.push(t)[0] == ts[0]);
        assert(ts.push(t).drop_first() =~= ts.drop_first().push(t));
        lemma_run_from_push(convert_step(st, ts[0]), ts.drop_first(), t);
    }
}

proof fn lemma_run_single(st: Option<(Seq<TokenModel>, Seq<TokenModel>)>, t: TokenModel)
    ensures
        run_from(st, seq![t]) == convert_step(st, t),
{
    lemma_run_from_push(st, Seq::<TokenModel>::empty(), t);
    assert(Seq::<TokenModel>::empty().push(t) =~= seq![t]);
    assert(run_from(st, Seq::<TokenModel>::empty()) == st);
}

proof fn lemma_convert_run(ts: Seq<TokenModel>)
    ensures
        convert_tokens(ts) == run_from(Some((seq![], seq![])), ts),
    decreases ts.len(),
{
    if ts.len() > 0 {
        lemma_convert_run(ts.drop_last());
        lemma_run_from_push(Some((seq![], seq![])), ts.drop_last(), ts.last());
        assert(ts.drop_last().push(ts.last()) =~= ts);
    }
}

proof fn lemma_run_concat(
    st: Option<(Seq<TokenModel>, Seq<TokenModel>)>,
    a: Seq<TokenModel>,
    b: Seq<TokenModel>,
)
    ensures
        run_from(st, a + b) == run_from(run_from(st, a), b),
    decreases a.len(),
{
    if a.len() == 0 {
        assert(a + b =~= b);
    } else {
        assert((a + b).drop_first() =~= a.drop_first() + b);
        assert((a + b)[0] == a[0]);
        lemma_run_concat(convert_step(st, a[0]), a.drop_first(), b);
    }
}

proof fn lemma_operators_drop_last(s: Seq<TokenModel>, p: nat)
    requires
        s.len() > 0,
        operators_from(s, p),
    ensures
        operators_from(s.drop_last(), p),
        is_operator(s.last()),
        precedence_of(s.last()) >= p,
{
    assert(forall|k: int| 0 <= k < s.len() - 1 ==> s.drop_last()[k] == s[k]);
    assert(s.last() == s[s.len() - 1]);
}

proof fn lemma_pop_pending(
    out: Seq<TokenModel>,
    stack: Seq<TokenModel>,
    pend: Seq<TokenModel>,
    p: nat,
)
    requires
        guards(stack, p),
        operators_from(pend, p),
    ensures
        pop_binding(out, stack + pend, p) == (out + flip(pend), stack),
    decreases pend.len(),
{
    if pend.len() == 0 {
        assert(stack + pend =~= stack);
        assert(out + flip(pend) =~= out);
    } else {
        lemma_operators_drop_last(pend, p);
        assert((stack + pend).last() == pend.last());
        assert((stack + pend).drop_last() =~= stack + pend.drop_last());
        lemma_pop_pending(out.push(pend.last()), stack, pend.drop_last(), p);
        assert(out.push(pend.last()) + flip(pend.drop_last()) =~= out + flip(pend));
    }
}

proof fn lemma_close_pending(out: Seq<TokenModel>, stack: Seq<TokenModel>, pend: Seq<TokenModel>)
    requires
        operators_from(pend, 0),
    ensures
        close_group(out, stack.push(TokenModel::LParen) + pend) == Some(
            (out + flip(pend), stack),
        ),
    decreases pend.len(),
{
    let s = stack.push(TokenModel::LParen);
    if pend.len() == 0 {
        assert(s + pend =~= s);
        assert(out + flip(pend) =~= out);
        assert(s.drop_last() =~= stack);
    } else {
        lemma_operators_drop_last(pend, 0);
        assert((s + pend).last() == pend.last());
        assert((s + pend).drop_last() =~= s + pend.drop_last());
        lemma_close_pending(out.push(pend.last()), stack, pend.drop_last());
        assert(out.push(pend.last()) + flip(pend.drop_last()) =~= out + flip(pend));
    }
}

proof fn lemma_drain_pending(out: Seq<TokenModel>, pend: Seq<TokenModel>)
    requires
        operators_from(pend, 0),
    ensures
        drain(out, pend) == Some(out + flip(pend)),
    decreases pend.len(),
{
    if pend.len() == 0 {
        assert(out + flip(pend) =~= out);
    } else {
        lemma_operators_drop_last(pend, 0);
        lemma_drain_pending(out.push(pend.last()), pend.drop_last());
        assert(out.push(pend.last()) + flip(pend.drop_last()) =~= out + flip(pend));
    }
}

proof fn lemma_flip_front(op: TokenModel, s: Seq<TokenModel>)
    ensures
        flip(seq![op] + s) == flip(s) + seq![op],
    decreases s.len(),
{
    if s.len() == 0 {
        assert(seq![op] + s =~= seq![op]);
        assert(seq![op].drop_last() =~= Seq::<TokenModel>::empty());
        assert(flip(Seq::<TokenModel>::empty()) == Seq::<TokenModel>::empty());
        assert(seq![op].last() == op);
        assert(seq![op] + Seq::<TokenModel>::empty() =~= seq![op]);
        assert(flip(seq![op]) =~= seq![op]);
        assert(flip(s) + seq![op] =~= seq![op]);
    } else {
        let t = seq![op] + s;
        assert(t.last() == s.last());
        assert(t.drop_last() =~= seq![op] + s.drop_last());
        lemma_flip_front(op, s.drop_last());
        assert(seq![s.last()] + (flip(s.drop_last()) + seq![op]) =~= flip(s) + seq![op]);
    }
}

proof fn lemma_pending(e: Expr)
    requires
        well_formed(e),
    ensures
        operators_from(pending(e), binding(e)),
        emitted(e) + flip(pending(e)) == postfix(e),
    decreases e,
{
    match e {
        Expr::Binary(l, op, r) => {
            lemma_pending(*r);
            lemma_flip_front(op, pending(*r));
            let pe = seq![op] + pending(*r);
            assert forall|k: int| 0 <= k < pe.len() implies is_operator(#[trigger] pe[k])
                && precedence_of(pe[k]) >= binding(e) by {
                if k > 0 {
                    assert(pe[k] == pending(*r)[k - 1]);
                }
            }
            assert(postfix(*l) + emitted(*r) + (flip(pending(*r)) + seq![op]) =~= postfix(*l) + (
            emitted(*r) + flip(pending(*r))) + seq![op]);
        },
        _ => {
            assert(emitted(e) + flip(seq![]) =~= emitted(e));
        },
    }
}

proof fn lemma_operators_weaken(s: Seq<TokenModel>, p: nat, q: nat)
    requires
        operators_from(s, p),
        q <= p,
    ensures
        operators_from(s, q),
{
}

proof fn lemma_run_expr(e: Expr, out: Seq<TokenModel>, stack: Seq<TokenModel>)
    requires
        well_formed(e),
        guards(stack, binding(e)),
    ensures
        run_from(Some((out, stack)), infix(e)) == Some((out + emitted(e), stack + pending(e))),
    decreases e,
{
    match e {
        Expr::Number(lit) => {
            let t = TokenModel::Number(lit);
            assert(infix(e) == seq![t]);
            assert(emitted(e) == seq![t]);
            assert(pending(e) == Seq::<TokenModel>::empty());
            lemma_run_single(Some((out, stack)), t);
            assert(out.push(t) =~= out + emitted(e));
            assert(stack + pending(e) =~= stack);
        },
        Expr::Group(inner) => {
            let body = infix(*inner);
            let open = seq![TokenModel::LParen];
            let close = seq![TokenModel::RParen];
            lemma_run_single(Some((out, stack)), TokenModel::LParen);
            lemma_run_concat(Some((out, stack)), open + body, close);
            lemma_run_concat(Some((out, stack)), open, body);
            lemma_run_expr(*inner, out, stack.push(TokenModel::LParen));
            lemma_pending(*inner);
            lemma_operators_weaken(pending(*inner), binding(*inner), 0);
            lemma_close_pending(out + emitted(*inner), stack, pending(*inner));
            lemma_run_single(
                Some((out + emitted(*inner), stack.push(TokenModel::LParen) + pending(*inner))),
                TokenModel::RParen,
            );
            assert(out + emitted(*inner) + flip(pending(*inner)) =~= out + emitted(e));
            assert(stack + pending(e) =~= stack);
        },
        Expr::Binary(l, op, r) => {
            let p = precedence_of(op);
            lemma_run_concat(Some((out, stack)), infix(*l) + seq![op], infix(*r));
            lemma_run_concat(Some((out, stack)), infix(*l), seq![op]);
            lemma_run_expr(*l, out, stack);
            lemma_run_single(Some((out + emitted(*l), stack + pending(*l))), op);
            lemma_pending(*l);
            lemma_operators_weaken(pending(*l), binding(*l), p);
            lemma_pop_pending(out + emitted(*l), stack, pending(*l), p);
            assert(out + emitted(*l) + flip(pending(*l)) =~= out + postfix(*l));
            assert(stack.push(op).last() == op);
            lemma_run_expr(*r, out + postfix(*l), stack.push(op));
            assert(out + postfix(*l) + emitted(*r) =~= out + emitted(e));
            assert(stack.push(op) + pending(*r) =~= stack + pending(e));
        },
    }
}

/// For an expression written with no parentheses beyond its own groups, the
/// conversion succeeds and gives the tree's postfix order: operands in the
/// order written, each operator after both of its operands, higher
/// precedence first, and equal precedence grouped to the left.
pub proof fn lemma_postfix_of_expression(e: Expr)
    requires
        well_formed(e),
    ensures
        postfix_of(infix(e)) == Some(postfix(e)),
{
    lemma_convert_run(infix(e));
    lemma_run_expr(e, seq![], seq![]);
    assert(Seq::<TokenModel>::empty() + emitted(e) =~= emitted(e));
    assert(Seq::<TokenModel>::empty() + pending(e) =~= pending(e));
    lemma_pending(e);
    lemma_operators_weaken(pending(e), binding(e), 0);
    lemma_drain_pending(emitted(e), pending(e));
}

} // verus!
