//! Infix to postfix transformation with the shunting-yard algorithm.

use vstd::prelude::*;
use crate::token::{Type, Tok, Token, toks, wf_tokens, wf_token, op_precedence, tok_precedence};
use crate::laws::{balanced, lemma_parenthesis_balance};

verus! {

/// Failure of the transformation: the parentheses do not match.
#[derive(Clone, Copy, PartialEq, Eq, Structural, Debug)]
pub enum TransformError {
    MismatchedParentheses,
}

/// Every operator except `^` groups to the left.
pub open spec fn left_assoc(c: char) -> bool {
    c != '^'
}

/// Whether an incoming operator `c` pops the stack top `t`: `t` must itself
/// be an operator, of precedence not below `c` (strictly above, when `c`
/// groups to the right).
pub open spec fn pops(c: char, t: Tok) -> bool {
    &&& t matches Tok::Operator(_)
    &&& if left_assoc(c) {
        op_precedence(c) <= tok_precedence(t)
    } else {
        op_precedence(c) < tok_precedence(t)
    }
}

/// Pop every stack-top operator that outranks the incoming operator `c` onto
/// the output; the result is the remaining stack and the grown output.
pub open spec fn pop_ops(stack: Seq<Tok>, out: Seq<Tok>, c: char) -> (Seq<Tok>, Seq<Tok>)
    decreases stack.len(),
{
    if stack.len() > 0 && pops(c, stack.last()) {
        pop_ops(stack.drop_last(), out.push(stack.last()), c)
    } else {
        (stack, out)
    }
}

/// Pop the stack onto the output until an opening parenthesis appears, which
/// is discarded; `None` when the stack holds none.
pub open spec fn pop_to_lparen(stack: Seq<Tok>, out: Seq<Tok>) -> Option<(Seq<Tok>, Seq<Tok>)>
    decreases stack.len(),
{
    if stack.len() == 0 {
        None
    } else if (stack.last() matches Tok::LParen) {
        let popped = (stack.drop_last(), out);
        Some(popped)
    } else {
        pop_to_lparen(stack.drop_last(), out.push(stack.last()))
    }
}

/// Drain the operator stack onto the output once the input is exhausted; a
/// parenthesis still on the stack is a mismatch.
pub open spec fn drain(stack: Seq<Tok>, out: Seq<Tok>) -> Result<Seq<Tok>, TransformError>
    decreases stack.len(),
{
    if stack.len() == 0 {
        Ok(out)
    } else if (stack.last() matches Tok::LParen) || (stack.last() matches Tok::RParen) {
        Err(TransformError::MismatchedParentheses)
    } else {
        drain(stack.drop_last(), out.push(stack.last()))
    }
}

/// The shunting-yard algorithm on the remaining input, given the operator
/// stack and the output built so far: numbers go to the output, operators
/// first pop what outranks them, parentheses open and close stack sections.
pub open spec fn shunt_from(input: Seq<Tok>, stack: Seq<Tok>, out: Seq<Tok>) -> Result<
    Seq<Tok>,
    TransformError,
>
    decreases input.len(),
{
    if input.len() == 0 {
        drain(stack, out)
    } else {
        let t = input[0];
        let rest = input.drop_first();
        match t {
            Tok::Number(_) => shunt_from(rest, stack, out.push(t)),
            Tok::Operator(c) => {
                let popped = pop_ops(stack, out, c);
                shunt_from(rest, popped.0.push(t), popped.1)
            },
            Tok::LParen => shunt_from(rest, stack.push(t), out),
            Tok::RParen => match pop_to_lparen(stack, out) {
                Some(popped) => shunt_from(rest, popped.0, popped.1),
                None => Err(TransformError::MismatchedParentheses),
            },
        }
    }
}

/// The postfix form of an infix token sequence, or the mismatch failure.
pub open spec fn shunt_spec(input: Seq<Tok>) -> Result<Seq<Tok>, TransformError> {
    shunt_from(input, Seq::empty(), Seq::empty())
}

/// Whether the stack-top operator outranks the incoming operator `c` of
/// precedence `prec`, decided in executable code.
fn should_pop(stack: &Vec<Token>, c: char, prec: u8) -> (r: bool)
    requires
        wf_tokens(stack@),
        prec == op_precedence(c),
    ensures
        r == (stack@.len() > 0 && pops(c, toks(stack@).last())),
{
    if stack.len() == 0 {
        return false;
    }
    let top = &stack[stack.len() - 1];
    match &top.typ {
        Type::Operator(_) => {
            if c != '^' {
                prec <= top.precedence
            } else {
                prec < top.precedence
            }
        },
        _ => false,
    }
}

/// Transform an infix token sequence into postfix order.
///
/// Succeeds exactly as `shunt_spec` says — which happens exactly on
/// correctly nested input — and fails with `MismatchedParentheses` on all
/// other input.
pub fn shunting_yard(tokens: &Vec<Token>) -> (r: Result<Vec<Token>, TransformError>)
    requires
        wf_tokens(tokens@),
    ensures
        match r {
            Ok(out) => shunt_spec(toks(tokens@)) == Ok::<Seq<Tok>, TransformError>(toks(out@))
                && wf_tokens(out@),
            Err(e) => shunt_spec(toks(tokens@)) == Err::<Seq<Tok>, TransformError>(e),
        },
        (r matches Ok(_)) <==> balanced(toks(tokens@)),
{
    let ghost full = toks(tokens@);
    let mut output_queue: Vec<Token> = Vec::new();
    let mut operator_stack: Vec<Token> = Vec::new();
    let mut idx: usize = 0;
    proof {
        assert(full.skip(0) =~= full);
        assert(toks(output_queue@) =~= Seq::<Tok>::empty());
        assert(toks(operator_stack@) =~= Seq::<Tok>::empty());
    }
    while idx < tokens.len()
        invariant
            wf_tokens(tokens@),
            full == toks(tokens@),
            idx <= tokens@.len(),
            wf_tokens(output_queue@),
            wf_tokens(operator_stack@),
            shunt_spec(full) == shunt_from(
                full.skip(idx as int),
                toks(operator_stack@),
                toks(output_queue@),
            ),
        decreases tokens@.len() - idx,
    {
        let ghost rem = full.skip(idx as int);
        proof {
            assert(rem.len() > 0);
            assert(wf_token(tokens@[idx as int]));
            assert(rem[0] == tokens@[idx as int]@);
            assert(rem.drop_first() =~= full.skip(idx as int + 1));
        }
        let token = &tokens[idx];
        match &token.typ {
            Type::Number(_) => {
                let ghost o = toks(output_queue@);
                output_queue.push(token.clone());
                proof {
                    assert(toks(output_queue@) =~= o.push(rem[0]));
                }
            },
            Type::Operator(op) => {
                let op = *op;
                let prec = token.precedence;
                let ghost s0 = toks(operator_stack@);
                let ghost o0 = toks(output_queue@);
                proof {
                    assert(*token == tokens@[idx as int]);
                    assert(token@ == Tok::Operator(op));
                    assert(prec == op_precedence(op));
                }
                while should_pop(&operator_stack, op, prec)
                    invariant
                        prec == op_precedence(op),
                        wf_tokens(output_queue@),
                        wf_tokens(operator_stack@),
                        pop_ops(s0, o0, op) == pop_ops(
                            toks(operator_stack@),
                            toks(output_queue@),
                            op,
                        ),
                    decreases operator_stack@.len(),
                {
                    let ghost s1 = toks(operator_stack@);
                    let ghost o1 = toks(output_queue@);
                    let t = operator_stack.pop().unwrap();
                    output_queue.push(t);
                    proof {
                        assert(toks(operator_stack@) =~= s1.drop_last());
                        assert(toks(output_queue@) =~= o1.push(s1.last()));
                    }
                }
                let ghost s2 = toks(operator_stack@);
                operator_stack.push(token.clone());
                proof {
                    assert(toks(operator_stack@) =~= s2.push(rem[0]));
                }
            },
            Type::LParen => {
                let ghost s0 = toks(operator_stack@);
                operator_stack.push(token.clone());
                proof {
                    assert(toks(operator_stack@) =~= s0.push(rem[0]));
                }
            },
            Type::RParen => {
                let ghost s0 = toks(operator_stack@);
                let ghost o0 = toks(output_queue@);
                let mut found_lparen = false;
                while !found_lparen && operator_stack.len() > 0
                    invariant
                        wf_tokens(output_queue@),
                        wf_tokens(operator_stack@),
                        pop_to_lparen(s0, o0) == (if found_lparen {
                            Some(
                                (
                                    toks(operator_stack@).drop_last(),
                                    toks(output_queue@),
                                ),
                            )
                        } else {
                            pop_to_lparen(toks(operator_stack@), toks(output_queue@))
                        }),
                        found_lparen ==> operator_stack@.len() > 0
                            && (toks(operator_stack@).last() matches Tok::LParen),
                    decreases operator_stack@.len(), (if found_lparen { 0int } else { 1int }),
                {
                    let last_idx = operator_stack.len() - 1;
                    let is_lp = match &operator_stack[last_idx].typ {
                        Type::LParen => true,
                        _ => false,
                    };
                    if is_lp {
                        found_lparen = true;
                    } else {
                        let ghost s1 = toks(operator_stack@);
                        let ghost o1 = toks(output_queue@);
                        let t = operator_stack.pop().unwrap();
                        output_queue.push(t);
                        proof {
                            assert(toks(operator_stack@) =~= s1.drop_last());
                            assert(toks(output_queue@) =~= o1.push(s1.last()));
                        }
                    }
                }
                if found_lparen {
                    let ghost s1 = toks(operator_stack@);
                    operator_stack.pop();
                    proof {
                        assert(toks(operator_stack@) =~= s1.drop_last());
                    }
                } else {
                    proof {
                        assert(toks(operator_stack@).len() == 0);
                        assert(pop_to_lparen(s0, o0) matches None);
                        assert(shunt_from(rem, s0, o0) == Err::<Seq<Tok>, TransformError>(
                            TransformError::MismatchedParentheses,
                        ));
                        lemma_parenthesis_balance(full);
                    }
                    return Err(TransformError::MismatchedParentheses);
                }
            },
        }
        idx = idx + 1;
    }
    proof {
        assert(full.skip(tokens@.len() as int) =~= Seq::<Tok>::empty());
    }
    while operator_stack.len() > 0
        invariant
            full == toks(tokens@),
            wf_tokens(output_queue@),
            wf_tokens(operator_stack@),
            shunt_spec(full) == drain(toks(operator_stack@), toks(output_queue@)),
        decreases operator_stack@.len(),
    {
        let ghost s1 = toks(operator_stack@);
        let ghost o1 = toks(output_queue@);
        let t = operator_stack.pop().unwrap();
        match &t.typ {
            Type::LParen | Type::RParen => {
                proof {
                    assert(s1.last() == t@);
                    assert(drain(s1, o1) == Err::<Seq<Tok>, TransformError>(
                        TransformError::MismatchedParentheses,
                    ));
                    lemma_parenthesis_balance(full);
                }
                return Err(TransformError::MismatchedParentheses);
            },
            _ => {
                output_queue.push(t);
                proof {
                    assert(toks(operator_stack@) =~= s1.drop_last());
                    assert(toks(output_queue@) =~= o1.push(s1.last()));
                }
            },
        }
    }
    proof {
        lemma_parenthesis_balance(full);
    }
    Ok(output_queue)
}

} // verus!
