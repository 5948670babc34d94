//! Reorders infix tokens into postfix (reverse Polish) order with the
//! Shunting Yard algorithm.
use vstd::multiset::Multiset;
use vstd::prelude::*;

use crate::stack::Stack;
use crate::tokenizer::{Token, TokenModel, tokens_model};

verus! {

/// How tightly an operator binds; parentheses and numbers are never compared.
pub open spec fn precedence_of(t: TokenModel) -> nat {
    match t {
        TokenModel::Multiply | TokenModel::Divide => 3,
        TokenModel::Plus | TokenModel::Minus => 2,
        _ => 0,
    }
}

/// Moves operators from the top of `stack` (its last element) to the end of
/// `out` for as long as the top is not an opening parenthesis and binds at
/// least as tightly as `p`.
pub open spec fn pop_binding(out: Seq<TokenModel>, stack: Seq<TokenModel>, p: nat) -> (
    Seq<TokenModel>,
    Seq<TokenModel>,
)
    decreases stack.len(),
{
    if stack.len() > 0 && stack.last() != TokenModel::LParen && precedence_of(stack.last()) >= p {
        pop_binding(out.push(stack.last()), stack.drop_last(), p)
    } else {
        (out, stack)
    }
}

/// Moves operators from the top of `stack` to `out` down to the nearest
/// opening parenthesis, which is dropped; `None` where there is none.
pub open spec fn close_group(out: Seq<TokenModel>, stack: Seq<TokenModel>) -> Option<
    (Seq<TokenModel>, Seq<TokenModel>),
>
    decreases stack.len(),
{
    if stack.len() == 0 {
        None
    } else if stack.last() == TokenModel::LParen {
        Some((out, stack.drop_last()))
    } else {
        close_group(out.push(stack.last()), stack.drop_last())
    }
}

/// One token of the conversion, on the state (output, operator stack);
/// `None` once a closing parenthesis had no partner.
pub open spec fn convert_step(
    st: Option<(Seq<TokenModel>, Seq<TokenModel>)>,
    t: TokenModel,
) -> Option<(Seq<TokenModel>, Seq<TokenModel>)> {
    match st {
        None => None,
        Some((out, stack)) => match t {
            TokenModel::Number(_) => Some((out.push(t), stack)),
            TokenModel::LParen => Some((out, stack.push(t))),
            TokenModel::RParen => close_group(out, stack),
            _ => {
                let (o, s) = pop_binding(out, stack, precedence_of(t));
                Some((o, s.push(t)))
            },
        },
    }
}

/// The conversion state after all of `ts`, from an empty output and stack.
pub open spec fn convert_tokens(ts: Seq<TokenModel>) -> Option<
    (Seq<TokenModel>, Seq<TokenModel>),
>
    decreases ts.len(),
{
    if ts.len() == 0 {
        Some((seq![], seq![]))
    } else {
        convert_step(convert_tokens(ts.drop_last()), ts.last())
    }
}

/// Moves what is left on the stack to the output, top first; `None` where
/// an opening parenthesis is left.
pub open spec fn drain(out: Seq<TokenModel>, stack: Seq<TokenModel>) -> Option<Seq<TokenModel>>
    decreases stack.len(),
{
    if stack.len() == 0 {
        Some(out)
    } else if stack.last() == TokenModel::LParen {
        None
    } else {
        drain(out.push(stack.last()), stack.drop_last())
    }
}

/// The postfix form of an infix token sequence, or `None` where its
/// parentheses do not match.
pub open spec fn postfix_of(ts: Seq<TokenModel>) -> Option<Seq<TokenModel>> {
    match convert_tokens(ts) {
        None => None,
        Some((out, stack)) => drain(out, stack),
    }
}

/// How a token changes the nesting depth of parentheses.
pub open spec fn depth_change(t: TokenModel) -> int {
    match t {
        TokenModel::LParen => 1,
        TokenModel::RParen => -1,
        _ => 0,
    }
}

/// The nesting depth of parentheses after `ts`: opened less closed.
pub open spec fn depth(ts: Seq<TokenModel>) -> int
    decreases ts.len(),
{
    if ts.len() == 0 {
        0
    } else {
        depth(ts.drop_last()) + depth_change(ts.last())
    }
}

/// Whether every `)` closes an earlier `(` and every `(` is closed.
pub open spec fn parens_match(ts: Seq<TokenModel>) -> bool {
    &&& (forall|k: int| 0 <= k <= ts.len() ==> depth(#[trigger] ts.subrange(0, k)) >= 0)
    &&& depth(ts) == 0
}

pub open spec fn is_paren(t: TokenModel) -> bool {
    t == TokenModel::LParen || t == TokenModel::RParen
}

/// The tokens of `ts` other than parentheses, in order.
pub open spec fn without_parens(ts: Seq<TokenModel>) -> Seq<TokenModel>
    decreases ts.len(),
{
    if ts.len() == 0 {
        seq![]
    } else if is_paren(ts.last()) {
        without_parens(ts.drop_last())
    } else {
        without_parens(ts.drop_last()).push(ts.last())
    }
}

/// What a conversion state holds of the input, as a multiset: the output
/// together with the operators waiting on the stack.
pub open spec fn held(out: Seq<TokenModel>, stack: Seq<TokenModel>) -> Multiset<TokenModel> {
    out.to_multiset().add(without_parens(stack).to_multiset())
}

/// Whether `ts` holds no parenthesis.
pub open spec fn paren_free(ts: Seq<TokenModel>) -> bool {
    forall|k: int| 0 <= k < ts.len() ==> !is_paren(#[trigger] ts[k])
}

/// Whether every entry of an operator stack is an opening parenthesis or a
/// binary operator.
pub open spec fn stack_shape(ts: Seq<TokenModel>) -> bool {
    forall|k: int|
        0 <= k < ts.len() ==> !(#[trigger] ts[k] is Number) && ts[k] != TokenModel::RParen
}

/// The number of opening parentheses on an operator stack.
pub open spec fn open_count(ts: Seq<TokenModel>) -> nat
    decreases ts.len(),
{
    if ts.len() == 0 {
        0
    } else {
        open_count(ts.drop_last()) + if ts.last() == TokenModel::LParen {
            1nat
        } else {
            0nat
        }
    }
}

proof fn lemma_pop_binding(out: Seq<TokenModel>, stack: Seq<TokenModel>, p: nat)
    requires
        paren_free(out),
        stack_shape(stack),
    ensures
        paren_free(pop_binding(out, stack, p).0),
        stack_shape(pop_binding(out, stack, p).1),
        open_count(pop_binding(out, stack, p).1) == open_count(stack),
        held(pop_binding(out, stack, p).0, pop_binding(out, stack, p).1) == held(out, stack),
    decreases stack.len(),
{
    broadcast use vstd::seq_lib::group_to_multiset_ensures;

    if stack.len() > 0 && stack.last() != TokenModel::LParen && precedence_of(stack.last()) >= p {
        assert(!is_paren(stack[stack.len() - 1]));
        assert(held(out.push(stack.last()), stack.drop_last()) =~= held(out, stack));
        assert(paren_free(out.push(stack.last()))) by {
            assert(forall|k: int| 0 <= k < out.len() ==> out.push(stack.last())[k] == out[k]);
        }
        assert(stack_shape(stack.drop_last())) by {
            assert(forall|k: int|
                0 <= k < stack.len() - 1 ==> stack.drop_last()[k] == stack[k]);
        }
        lemma_pop_binding(out.push(stack.last()), stack.drop_last(), p);
    }
}

proof fn lemma_close_group(out: Seq<TokenModel>, stack: Seq<TokenModel>)
    requires
        paren_free(out),
        stack_shape(stack),
    ensures
        close_group(out, stack) is None <==> open_count(stack) == 0,
        close_group(out, stack) matches Some((o, s)) ==> paren_free(o) && stack_shape(s)
            && open_count(s) + 1 == open_count(stack) && held(o, s) == held(out, stack),
    decreases stack.len(),
{
    broadcast use vstd::seq_lib::group_to_multiset_ensures;

    if stack.len() > 0 {
        if stack.last() != TokenModel::LParen {
            assert(held(out.push(stack.last()), stack.drop_last()) =~= held(out, stack));
        }
        assert(stack_shape(stack.drop_last())) by {
            assert(forall|k: int|
                0 <= k < stack.len() - 1 ==> stack.drop_last()[k] == stack[k]);
        }
        if stack.last() != TokenModel::LParen {
            assert(!is_paren(stack[stack.len() - 1]));
            assert(paren_free(out.push(stack.last()))) by {
                assert(forall|k: int| 0 <= k < out.len() ==> out.push(stack.last())[k] == out[k]);
            }
            lemma_close_group(out.push(stack.last()), stack.drop_last());
        }
    }
}

proof fn lemma_drain(out: Seq<TokenModel>, stack: Seq<TokenModel>)
    requires
        paren_free(out),
        stack_shape(stack),
    ensures
        drain(out, stack) is None <==> open_count(stack) > 0,
        drain(out, stack) matches Some(o) ==> paren_free(o) && o.to_multiset() == held(out, stack),
    decreases stack.len(),
{
    broadcast use vstd::seq_lib::group_to_multiset_ensures;

    if stack.len() > 0 {
        if stack.last() != TokenModel::LParen {
            assert(held(out.push(stack.last()), stack.drop_last()) =~= held(out, stack));
        }
        assert(stack_shape(stack.drop_last())) by {
            assert(forall|k: int|
                0 <= k < stack.len() - 1 ==> stack.drop_last()[k] == stack[k]);
        }
        if stack.last() != TokenModel::LParen {
            assert(!is_paren(stack[stack.len() - 1]));
            assert(paren_free(out.push(stack.last()))) by {
                assert(forall|k: int| 0 <= k < out.len() ==> out.push(stack.last())[k] == out[k]);
            }
            lemma_drain(out.push(stack.last()), stack.drop_last());
        }
    }
}

proof fn lemma_convert_tokens(ts: Seq<TokenModel>)
    ensures
        convert_tokens(ts) is Some <==> forall|k: int|
            0 <= k <= ts.len() ==> depth(#[trigger] ts.subrange(0, k)) >= 0,
        convert_tokens(ts) matches Some((o, s)) ==> paren_free(o) && stack_shape(s)
            && open_count(s) == depth(ts) && held(o, s) == without_parens(ts).to_multiset(),
    decreases ts.len(),
{
    broadcast use vstd::seq_lib::group_to_multiset_ensures;

    if ts.len() == 0 {
        assert(ts.subrange(0, 0) =~= ts);
    } else {
        let init = ts.drop_last();
        let t = ts.last();
        lemma_convert_tokens(init);
        assert(ts.subrange(0, ts.len() as int) =~= ts);
        assert forall|k: int| 0 <= k < ts.len() implies ts.subrange(0, k) == init.subrange(0, k) by {
            assert(ts.subrange(0, k) =~= init.subrange(0, k));
        }
        if let Some((o, s)) = convert_tokens(init) {
            match t {
                TokenModel::Number(_) => {
                    assert(held(o.push(t), s) =~= held(o, s).insert(t));
                    assert(paren_free(o.push(t))) by {
                        assert(forall|k: int| 0 <= k < o.len() ==> o.push(t)[k] == o[k]);
                    }
                },
                TokenModel::LParen => {
                    assert(s.push(t).drop_last() =~= s);
                    assert(stack_shape(s.push(t))) by {
                        assert(forall|k: int| 0 <= k < s.len() ==> s.push(t)[k] == s[k]);
                    }
                },
                TokenModel::RParen => {
                    lemma_close_group(o, s);
                },
                _ => {
                    lemma_pop_binding(o, s, precedence_of(t));
                    let (o2, s2) = pop_binding(o, s, precedence_of(t));
                    assert(s2.push(t).drop_last() =~= s2);
                    assert(held(o2, s2.push(t)) =~= held(o2, s2).insert(t));
                    assert(stack_shape(s2.push(t))) by {
                        assert(forall|k: int| 0 <= k < s2.len() ==> s2.push(t)[k] == s2[k]);
                    }
                },
            }
        } else {
            let k0 = choose|k: int| 0 <= k <= init.len() && depth(#[trigger] init.subrange(0, k)) < 0;
            assert(ts.subrange(0, k0) == init.subrange(0, k0));
        }
    }
}

/// The conversion fails exactly where the parentheses do not match; what it
/// produces holds no parenthesis, and holds every other token of the input
/// as often as the input does, reordered.
pub proof fn lemma_postfix_shape(ts: Seq<TokenModel>)
    ensures
        postfix_of(ts) is Some <==> parens_match(ts),
        postfix_of(ts) matches Some(o) ==> paren_free(o) && o.to_multiset()
            == without_parens(ts).to_multiset(),
{
    lemma_convert_tokens(ts);
    if let Some((o, s)) = convert_tokens(ts) {
        lemma_drain(o, s);
        assert(ts.subrange(0, ts.len() as int) =~= ts);
    }
}

proof fn lemma_failure_stays(ts: Seq<TokenModel>, k: int)
    requires
        0 <= k <= ts.len(),
        convert_tokens(ts.subrange(0, k)) is None,
    ensures
        convert_tokens(ts) is None,
    decreases ts.len(),
{
    if k == ts.len() {
        assert(ts.subrange(0, k) =~= ts);
    } else {
        assert(ts.drop_last().subrange(0, k) =~= ts.subrange(0, k));
        lemma_failure_stays(ts.drop_last(), k);
    }
}

fn precedence(token: &Token) -> (r: u8)
    ensures
        r == precedence_of(token@),
{
    match token {
        Token::Multiply | Token::Divide => 3,
        Token::Plus | Token::Minus => 2,
        _ => 0,
    }
}

/// Converts infix tokens to postfix order.
///
/// Numbers go straight to the output. Operators wait on a stack and leave it
/// when an operator that binds no more tightly arrives, so operators of
/// equal precedence associate to the left. A closing parenthesis releases
/// the operators down to its opening partner. The only failure is
/// "Mismatched parentheses": a `)` without a partner, or a `(` left open.
pub fn infix_to_postfix(tokens: &[Token]) -> (r: Result<Vec<Token>, &'static str>)
    ensures
        match r {
            Ok(v) => postfix_of(tokens_model(tokens@)) == Some(tokens_model(v@)),
            Err(e) => postfix_of(tokens_model(tokens@)) is None && e@ == "Mismatched parentheses"@,
        },
        r is Ok <==> parens_match(tokens_model(tokens@)),
        r matches Ok(v) ==> paren_free(tokens_model(v@)) && tokens_model(v@).to_multiset()
            == without_parens(tokens_model(tokens@)).to_multiset(),
{
    let ghost ts = tokens_model(tokens@);
    let mut output: Vec<Token> = Vec::new();
    let mut op_stack: Stack<Token> = Stack::new();
    let mut i: usize = 0;
    assert(ts.subrange(0, 0) =~= seq![]);
    assert(tokens_model(output@) =~= seq![]);
    assert(tokens_model(op_stack@) =~= seq![]);
    while i < tokens.len()
        invariant
            ts == tokens_model(tokens@),
            i <= tokens.len(),
            convert_tokens(ts.subrange(0, i as int)) == Some(
                (tokens_model(output@), tokens_model(op_stack@)),
            ),
        decreases tokens.len() - i,
    {
        let token = &tokens[i];
        let ghost out0 = tokens_model(output@);
        let ghost st0 = tokens_model(op_stack@);
        assert(ts.subrange(0, i + 1).drop_last() =~= ts.subrange(0, i as int));
        assert(ts.subrange(0, i + 1).last() == token@);
        match token {
            Token::Number(_) => {
                output.push(token.duplicate());
                assert(tokens_model(output@) =~= out0.push(token@));
            },
            Token::LParen => {
                op_stack.push(token.duplicate());
                assert(tokens_model(op_stack@) =~= st0.push(token@));
            },
            Token::RParen => {
                let mut found_paren = false;
                loop
                    invariant_except_break
                        !found_paren,
                        close_group(out0, st0) == close_group(
                            tokens_model(output@),
                            tokens_model(op_stack@),
                        ),
                    ensures
                        found_paren ==> close_group(out0, st0) == Some(
                            (tokens_model(output@), tokens_model(op_stack@)),
                        ),
                        !found_paren ==> close_group(out0, st0) is None,
                    decreases op_stack@.len(),
                {
                    let ghost o = tokens_model(output@);
                    let ghost s = tokens_model(op_stack@);
                    let ghost sv = op_stack@;
                    match op_stack.pop() {
                        Some(Token::LParen) => {
                            assert(s.last() == sv.last()@);
                            assert(tokens_model(op_stack@) =~= s.drop_last());
                            found_paren = true;
                            break ;
                        },
                        Some(top) => {
                            output.push(top);
                            assert(tokens_model(op_stack@) =~= s.drop_last());
                            assert(tokens_model(output@) =~= o.push(s.last()));
                        },
                        None => {
                            break ;
                        },
                    }
                }
                if !found_paren {
                    proof {
                        lemma_failure_stays(ts, i + 1);
                        lemma_postfix_shape(ts);
                    }
                    return Err("Mismatched parentheses");
                }
            },
            _ => {
                let p = precedence(token);
                loop
                    invariant_except_break
                        pop_binding(out0, st0, p as nat) == pop_binding(
                            tokens_model(output@),
                            tokens_model(op_stack@),
                            p as nat,
                        ),
                    ensures
                        pop_binding(out0, st0, p as nat) == (
                            tokens_model(output@),
                            tokens_model(op_stack@),
                        ),
                    decreases op_stack@.len(),
                {
                    let ghost o = tokens_model(output@);
                    let ghost s = tokens_model(op_stack@);
                    let binds = match op_stack.peek() {
                        None => false,
                        Some(top) => match top {
                            Token::LParen => false,
                            _ => p <= precedence(top),
                        },
                    };
                    if !binds {
                        break ;
                    }
                    let top = op_stack.pop().unwrap();
                    output.push(top);
                    assert(tokens_model(op_stack@) =~= s.drop_last());
                    assert(tokens_model(output@) =~= o.push(s.last()));
                }
                let ghost st1 = tokens_model(op_stack@);
                op_stack.push(token.duplicate());
                assert(tokens_model(op_stack@) =~= st1.push(token@));
            },
        }
        i = i + 1;
    }
    assert(ts.subrange(0, i as int) =~= ts);
    let ghost out_done = tokens_model(output@);
    let ghost st_done = tokens_model(op_stack@);
    assert(postfix_of(tokens_model(tokens@)) == drain(out_done, st_done));
    loop
        invariant
            postfix_of(tokens_model(tokens@)) == drain(out_done, st_done),
            drain(out_done, st_done) == drain(tokens_model(output@), tokens_model(op_stack@)),
        decreases op_stack@.len(),
    {
        let ghost o = tokens_model(output@);
        let ghost s = tokens_model(op_stack@);
        let ghost sv = op_stack@;
        match op_stack.pop() {
            Some(Token::LParen) => {
                assert(s.last() == sv.last()@);
                proof {
                    lemma_postfix_shape(tokens_model(tokens@));
                }
                return Err("Mismatched parentheses");
            },
            Some(op) => {
                output.push(op);
                assert(tokens_model(op_stack@) =~= s.drop_last());
                assert(tokens_model(output@) =~= o.push(s.last()));
            },
            None => {
                proof {
                    lemma_postfix_shape(tokens_model(tokens@));
                }
                return Ok(output);
            },
        }
    }
}

} // verus!
