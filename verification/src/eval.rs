//! Evaluation of a postfix (RPN) token sequence: numbers push onto a value
//! stack, each operator combines the two most recent values. The result is
//! the expression the sequence denotes, as a tree; what only floating-point
//! arithmetic can do — reduce that tree to a number — is the caller's part.

use vstd::prelude::*;
use crate::token::{Type, Tok, Token, toks, is_op_char};
use crate::laws::{valid_rpn, lemma_evaluation_succeeds_iff};

verus! {

/// Failure of evaluation: an operator short of operands, an operator symbol
/// outside the recognized set, a structural token that survived the
/// transformation, or a final stack that does not hold exactly one value.
#[derive(Clone, Copy, PartialEq, Eq, Structural, Debug)]
pub enum EvalError {
    InsufficientOperands(char),
    UnknownOperator(char),
    InvalidRpnToken,
    MalformedExpression,
}

/// The expression a postfix sequence denotes: a number literal, or an
/// operator applied to a left and a right operand.
pub enum Expr {
    Num(Vec<char>),
    BinOp(char, Box<Expr>, Box<Expr>),
}

/// Mathematical counterpart of `Expr`.
pub enum ExprV {
    Num(Seq<char>),
    BinOp(char, Box<ExprV>, Box<ExprV>),
}

/// The mathematical view of an expression tree.
pub open spec fn expr_view(e: Expr) -> ExprV
    decreases e,
{
    match e {
        Expr::Num(lit) => ExprV::Num(lit@),
        Expr::BinOp(c, a, b) => ExprV::BinOp(c, Box::new(expr_view(*a)), Box::new(expr_view(*b))),
    }
}

/// The mathematical view of a value stack.
pub open spec fn exprs(es: Seq<Expr>) -> Seq<ExprV> {
    es.map_values(|e: Expr| expr_view(e))
}

/// One step per token: a number pushes its literal, an operator pops the
/// right operand, then the left, and pushes their combination; at the end
/// the stack must hold exactly the one resulting expression.
pub open spec fn eval_from(input: Seq<Tok>, stack: Seq<ExprV>) -> Result<ExprV, EvalError>
    decreases input.len(),
{
    if input.len() == 0 {
        if stack.len() == 1 {
            Ok(stack[0])
        } else {
            Err(EvalError::MalformedExpression)
        }
    } else {
        let rest = input.drop_first();
        match input[0] {
            Tok::Number(lit) => eval_from(rest, stack.push(ExprV::Num(lit))),
            Tok::Operator(c) => if stack.len() < 2 {
                Err(EvalError::InsufficientOperands(c))
            } else if !is_op_char(c) {
                Err(EvalError::UnknownOperator(c))
            } else {
                let b = stack.last();
                let a = stack[stack.len() - 2];
                let combined = ExprV::BinOp(c, Box::new(a), Box::new(b));
                eval_from(rest, stack.drop_last().drop_last().push(combined))
            },
            Tok::LParen => Err(EvalError::InvalidRpnToken),
            Tok::RParen => Err(EvalError::InvalidRpnToken),
        }
    }
}

/// The expression a whole postfix sequence denotes, or its first failure.
pub open spec fn eval_rpn_spec(input: Seq<Tok>) -> Result<ExprV, EvalError> {
    eval_from(input, Seq::empty())
}

/// Evaluate a postfix token sequence to the expression it denotes.
///
/// Succeeds exactly on well-shaped postfix input, and fails exactly as
/// `eval_rpn_spec` says: `InsufficientOperands` at the first operator with
/// fewer than two values on the stack, `UnknownOperator` for an operator
/// symbol outside `+ - * / ^`, `InvalidRpnToken` for a parenthesis, and
/// `MalformedExpression` when the final stack does not hold exactly one
/// value.
pub fn evaluate_rpn(rpn_queue: &Vec<Token>) -> (r: Result<Expr, EvalError>)
    ensures
        match r {
            Ok(e) => eval_rpn_spec(toks(rpn_queue@)) == Ok::<ExprV, EvalError>(expr_view(e)),
            Err(err) => eval_rpn_spec(toks(rpn_queue@)) == Err::<ExprV, EvalError>(err),
        },
        (r matches Ok(_)) <==> valid_rpn(toks(rpn_queue@)),
{
    let ghost full = toks(rpn_queue@);
    let mut value_stack: Vec<Expr> = Vec::new();
    let mut idx: usize = 0;
    proof {
        assert(full.skip(0) =~= full);
        assert(exprs(value_stack@) =~= Seq::<ExprV>::empty());
    }
    while idx < rpn_queue.len()
        invariant
            full == toks(rpn_queue@),
            idx <= rpn_queue@.len(),
            eval_rpn_spec(full) == eval_from(full.skip(idx as int), exprs(value_stack@)),
        decreases rpn_queue@.len() - idx,
    {
        let ghost rem = full.skip(idx as int);
        let ghost st = exprs(value_stack@);
        proof {
            assert(rem.len() > 0);
            assert(rem[0] == rpn_queue@[idx as int]@);
            assert(rem.drop_first() =~= full.skip(idx as int + 1));
        }
        let token = &rpn_queue[idx];
        match &token.typ {
            Type::Number(lit) => {
                value_stack.push(Expr::Num(lit.clone()));
                proof {
                    assert(exprs(value_stack@) =~= st.push(ExprV::Num(lit@)));
                }
            },
            Type::Operator(op) => {
                let op = *op;
                if value_stack.len() < 2 {
                    proof {
                        assert(eval_from(rem, st) == Err::<ExprV, EvalError>(
                            EvalError::InsufficientOperands(op),
                        ));
                    }
                    proof {
                        lemma_evaluation_succeeds_iff(full);
                    }
                    return Err(EvalError::InsufficientOperands(op));
                }
                if op == '+' || op == '-' || op == '*' || op == '/' || op == '^' {
                    let b = value_stack.pop().unwrap();
                    let a = value_stack.pop().unwrap();
                    value_stack.push(Expr::BinOp(op, Box::new(a), Box::new(b)));
                    proof {
                        let combined = ExprV::BinOp(
                            op,
                            Box::new(st[st.len() - 2]),
                            Box::new(st.last()),
                        );
                        assert(exprs(value_stack@) =~= st.drop_last().drop_last().push(combined));
                    }
                } else {
                    proof {
                        assert(eval_from(rem, st) == Err::<ExprV, EvalError>(
                            EvalError::UnknownOperator(op),
                        ));
                    }
                    proof {
                        lemma_evaluation_succeeds_iff(full);
                    }
                    return Err(EvalError::UnknownOperator(op));
                }
            },
            Type::LParen | Type::RParen => {
                proof {
                    assert(eval_from(rem, st) == Err::<ExprV, EvalError>(
                        EvalError::InvalidRpnToken,
                    ));
                }
                proof {
                    lemma_evaluation_succeeds_iff(full);
                }
                return Err(EvalError::InvalidRpnToken);
            },
        }
        idx = idx + 1;
    }
    proof {
        assert(full.skip(rpn_queue@.len() as int) =~= Seq::<Tok>::empty());
    }
    proof {
        lemma_evaluation_succeeds_iff(full);
    }
    if value_stack.len() == 1 {
        let ghost st_fin = exprs(value_stack@);
        let e = value_stack.pop().unwrap();
        proof {
            assert(st_fin[0] == expr_view(e));
        }
        Ok(e)
    } else {
        Err(EvalError::MalformedExpression)
    }
}

} // verus!
