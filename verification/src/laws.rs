//! Laws of the pipeline, stated over the mathematical models and proved once
//! and for all: what the transformation does to parenthesis-free postfix
//! input, when it succeeds at all, what an operator short of operands does to
//! evaluation, and that a fully parenthesized expression survives the round
//! trip through postfix form unchanged.

use vstd::prelude::*;
use crate::token::{Tok, is_op_char, is_number, is_operator, is_lparen, is_rparen};
use crate::transform::{TransformError, shunt_from, shunt_spec, pops, pop_ops, pop_to_lparen, drain};
use crate::eval::{ExprV, EvalError, eval_from, eval_rpn_spec};

verus! {

/// Every token of the sequence is a number.
pub open spec fn all_numbers(s: Seq<Tok>) -> bool {
    forall|j: int| 0 <= j < s.len() ==> is_number(s[j])
}

/// Number tokens pass straight through the transformation, in order.
proof fn lemma_shunt_numbers(nums: Seq<Tok>, rest: Seq<Tok>, stack: Seq<Tok>, out: Seq<Tok>)
    requires
        all_numbers(nums),
    ensures
        shunt_from(nums + rest, stack, out) == shunt_from(rest, stack, out + nums),
    decreases nums.len(),
{
    if nums.len() == 0 {
        assert(nums + rest =~= rest);
        assert(out + nums =~= out);
    } else {
        let t = nums[0];
        assert((nums + rest)[0] == t);
        assert((nums + rest).drop_first() =~= nums.drop_first() + rest);
        lemma_shunt_numbers(nums.drop_first(), rest, stack, out.push(t));
        assert(out.push(t) + nums.drop_first() =~= out + nums);
    }
}

/// A parenthesis-free sequence of numbers around a single operator is
/// transformed by moving the operator to the end: the numbers keep their
/// relative order untouched.
pub proof fn lemma_single_operator_transform(a: Seq<Tok>, c: char, b: Seq<Tok>)
    requires
        all_numbers(a),
        all_numbers(b),
    ensures
        shunt_spec(a + seq![Tok::Operator(c)] + b) == Ok::<Seq<Tok>, TransformError>(
            a + b + seq![Tok::Operator(c)],
        ),
{
    let op = Tok::Operator(c);
    let input = a + seq![op] + b;
    assert(input =~= a + (seq![op] + b));
    lemma_shunt_numbers(a, seq![op] + b, Seq::empty(), Seq::empty());
    assert(Seq::<Tok>::empty() + a =~= a);
    // the operator meets an empty stack: nothing outranks it
    assert((seq![op] + b)[0] == op);
    assert((seq![op] + b).drop_first() =~= b);
    assert(pop_ops(Seq::empty(), a, c) == (Seq::<Tok>::empty(), a));
    assert(shunt_from(seq![op] + b, Seq::empty(), a) == shunt_from(
        b,
        Seq::<Tok>::empty().push(op),
        a,
    ));
    lemma_shunt_numbers(b, Seq::empty(), Seq::<Tok>::empty().push(op), a);
    assert(b + Seq::<Tok>::empty() =~= b);
    // drain the one operator
    let stack1 = Seq::<Tok>::empty().push(op);
    assert(stack1.last() == op);
    assert(stack1.drop_last() =~= Seq::<Tok>::empty());
    assert(drain(stack1, a + b) == drain(Seq::<Tok>::empty(), (a + b).push(op)));
    assert(drain(Seq::<Tok>::empty(), (a + b).push(op)) == Ok::<Seq<Tok>, TransformError>(
        (a + b).push(op),
    ));
    assert((a + b).push(op) =~= a + b + seq![op]);
}

/// A parenthesis-free sequence of numbers alone is transformed to itself.
pub proof fn lemma_numbers_transform(a: Seq<Tok>)
    requires
        all_numbers(a),
    ensures
        shunt_spec(a) == Ok::<Seq<Tok>, TransformError>(a),
{
    lemma_shunt_numbers(a, Seq::empty(), Seq::empty(), Seq::empty());
    assert(a + Seq::<Tok>::empty() =~= a);
    assert(Seq::<Tok>::empty() + a =~= a);
}

/// Transforming an already-postfix sequence with no parentheses and at most
/// one operator — which then stands last — gives the sequence back unchanged.
pub proof fn lemma_retransform_postfix(input: Seq<Tok>)
    requires
        forall|j: int| 0 <= j < input.len() - 1 ==> is_number(input[j]),
        input.len() > 0 ==> (is_number(input.last()) || is_operator(input.last())),
    ensures
        shunt_spec(input) == Ok::<Seq<Tok>, TransformError>(input),
{
    if input.len() == 0 || (input.last() matches Tok::Number(_)) {
        lemma_numbers_transform(input);
    } else {
        let c = input.last()->Operator_0;
        let a = input.drop_last();
        assert(input =~= a + seq![Tok::Operator(c)] + Seq::<Tok>::empty());
        lemma_single_operator_transform(a, c, Seq::empty());
        assert(a + Seq::<Tok>::empty() + seq![Tok::Operator(c)] =~= input);
    }
}

/// An operator preceded only by numbers, and by fewer than two of them,
/// fails evaluation with `InsufficientOperands` naming that operator.
pub proof fn lemma_arity_check(input: Seq<Tok>, k: int, c: char)
    requires
        0 <= k < input.len(),
        input[k] == Tok::Operator(c),
        forall|j: int| 0 <= j < k ==> is_number(input[j]),
        k < 2,
    ensures
        eval_rpn_spec(input) == Err::<ExprV, EvalError>(EvalError::InsufficientOperands(c)),
{
    if k == 0 {
        assert(eval_from(input, Seq::empty()) == Err::<ExprV, EvalError>(
            EvalError::InsufficientOperands(c),
        ));
    } else {
        let lit = input[0]->Number_0;
        let stack1 = Seq::<ExprV>::empty().push(ExprV::Num(lit));
        assert(eval_from(input, Seq::empty()) == eval_from(input.drop_first(), stack1));
        assert(input.drop_first()[0] == input[1]);
        assert(stack1.len() < 2);
        assert(eval_from(input.drop_first(), stack1) == Err::<ExprV, EvalError>(
            EvalError::InsufficientOperands(c),
        ));
    }
}

/// What a token adds to the value stack: a number pushes one value, an
/// operator pops two and pushes one, a parenthesis (which never evaluates)
/// counts for nothing.
pub open spec fn stack_delta(t: Tok) -> int {
    match t {
        Tok::Number(_) => 1,
        Tok::Operator(_) => -1,
        Tok::LParen => 0,
        Tok::RParen => 0,
    }
}

/// Net growth of the value stack over the sequence.
pub open spec fn height(s: Seq<Tok>) -> int
    decreases s.len(),
{
    if s.len() == 0 {
        0
    } else {
        stack_delta(s[0]) + height(s.drop_first())
    }
}

proof fn lemma_height_concat(a: Seq<Tok>, b: Seq<Tok>)
    ensures
        height(a + b) == height(a) + height(b),
    decreases a.len(),
{
    if a.len() == 0 {
        assert(a + b =~= b);
    } else {
        assert((a + b).drop_first() =~= a.drop_first() + b);
        lemma_height_concat(a.drop_first(), b);
    }
}

proof fn lemma_height_singleton(t: Tok)
    ensures
        height(seq![t]) == stack_delta(t),
{
    assert(seq![t].drop_first() =~= Seq::<Tok>::empty());
    assert(seq![t][0] == t);
    assert(height(Seq::<Tok>::empty()) == 0);
}

/// Every token is a number or a recognized operator.
pub open spec fn rpn_tokens_ok(s: Seq<Tok>) -> bool {
    forall|k: int|
        0 <= k < s.len() ==> is_number(#[trigger] s[k]) || (s[k] matches Tok::Operator(c)
            && is_op_char(c))
}

/// Every operator finds at least two values on the stack, counting `h`
/// values already there.
pub open spec fn arity_ok(s: Seq<Tok>, h: int) -> bool {
    forall|k: int|
        0 <= k < s.len() && is_operator(s[k]) ==> h + height(#[trigger] s.subrange(0, k)) >= 2
}

/// A postfix sequence evaluates to one value exactly when it holds only
/// numbers and recognized operators, every operator has two operands ready,
/// and one value is left at the end.
pub open spec fn valid_rpn(s: Seq<Tok>) -> bool {
    rpn_tokens_ok(s) && arity_ok(s, 0) && height(s) == 1
}

/// One consumed token shifts the evaluation condition by its stack effect.
proof fn lemma_rpn_cond_step(input: Seq<Tok>, h: int)
    requires
        input.len() > 0,
        h >= 0,
    ensures
        (rpn_tokens_ok(input) && arity_ok(input, h) && h + height(input) == 1) <==> (match input[0] {
            Tok::Number(_) => rpn_tokens_ok(input.drop_first()) && arity_ok(
                input.drop_first(),
                h + 1,
            ) && h + 1 + height(input.drop_first()) == 1,
            Tok::Operator(c) => is_op_char(c) && h >= 2 && rpn_tokens_ok(input.drop_first())
                && arity_ok(input.drop_first(), h - 1) && h - 1 + height(input.drop_first()) == 1,
            Tok::LParen => false,
            Tok::RParen => false,
        }),
{
    let t = input[0];
    let rest = input.drop_first();
    let d = stack_delta(t);
    assert forall|k: int| 0 <= k <= rest.len() implies input.subrange(0, k + 1) == seq![t]
        + rest.subrange(0, k) by {
        assert(input.subrange(0, k + 1) =~= seq![t] + rest.subrange(0, k));
    }
    assert forall|k: int| 0 <= k <= rest.len() implies height(#[trigger] input.subrange(0, k + 1))
        == d + height(rest.subrange(0, k)) by {
        lemma_height_concat(seq![t], rest.subrange(0, k));
        lemma_height_singleton(t);
    }
    assert(input.subrange(0, input.len() as int) =~= input);
    assert(rest.subrange(0, rest.len() as int) =~= rest);
    assert(input.subrange(0, 0) =~= Seq::<Tok>::empty());
    assert(rest.subrange(0, 0) =~= Seq::<Tok>::empty());
    assert(height(Seq::<Tok>::empty()) == 0);
    assert(height(input) == d + height(rest));
    if rpn_tokens_ok(input) && arity_ok(input, h) && h + height(input) == 1 {
        assert(rpn_tokens_ok(rest)) by {
            assert forall|k: int|
                0 <= k < rest.len() implies is_number(#[trigger] rest[k]) || (rest[k]
                matches Tok::Operator(c) && is_op_char(c)) by {
                assert(rest[k] == input[k + 1]);
            }
        }
        assert forall|k: int| 0 <= k < rest.len() && is_operator(rest[k]) implies (h + d) + height(
            #[trigger] rest.subrange(0, k),
        ) >= 2 by {
            assert(rest[k] == input[k + 1]);
            assert(h + height(input.subrange(0, k + 1)) >= 2);
        }
        if is_operator(t) {
            assert(h + height(input.subrange(0, 0)) >= 2);
        }
    }
    if (match t {
        Tok::Number(_) => rpn_tokens_ok(rest) && arity_ok(rest, h + 1) && h + 1 + height(rest)
            == 1,
        Tok::Operator(c) => is_op_char(c) && h >= 2 && rpn_tokens_ok(rest) && arity_ok(
            rest,
            h - 1,
        ) && h - 1 + height(rest) == 1,
        Tok::LParen => false,
        Tok::RParen => false,
    }) {
        assert(rpn_tokens_ok(input)) by {
            assert forall|k: int|
                0 <= k < input.len() implies is_number(#[trigger] input[k]) || (input[k]
                matches Tok::Operator(c) && is_op_char(c)) by {
                if k > 0 {
                    assert(input[k] == rest[k - 1]);
                }
            }
        }
        assert forall|k: int| 0 <= k < input.len() && is_operator(input[k]) implies h + height(
            #[trigger] input.subrange(0, k),
        ) >= 2 by {
            if k > 0 {
                assert(input[k] == rest[k - 1]);
                assert((h + d) + height(rest.subrange(0, k - 1)) >= 2);
                assert(input.subrange(0, k) == seq![t] + rest.subrange(0, k - 1));
            }
        }
    }
}

/// Evaluation from a stack of `stack.len()` values succeeds exactly when the
/// remaining input is shaped for it.
proof fn lemma_eval_ok_iff_from(input: Seq<Tok>, stack: Seq<ExprV>)
    ensures
        (eval_from(input, stack) matches Ok(_)) <==> (rpn_tokens_ok(input) && arity_ok(
            input,
            stack.len() as int,
        ) && stack.len() + height(input) == 1),
    decreases input.len(),
{
    let h = stack.len() as int;
    if input.len() == 0 {
        assert(height(input) == 0);
        assert(arity_ok(input, h));
    } else {
        lemma_rpn_cond_step(input, h);
        let rest = input.drop_first();
        match input[0] {
            Tok::Number(lit) => {
                lemma_eval_ok_iff_from(rest, stack.push(ExprV::Num(lit)));
            },
            Tok::Operator(c) => {
                if h >= 2 && is_op_char(c) {
                    let b = stack.last();
                    let a = stack[stack.len() - 2];
                    let combined = ExprV::BinOp(c, Box::new(a), Box::new(b));
                    lemma_eval_ok_iff_from(rest, stack.drop_last().drop_last().push(combined));
                }
            },
            Tok::LParen => {},
            Tok::RParen => {},
        }
    }
}

/// Evaluation succeeds exactly on well-shaped postfix sequences: only
/// numbers and recognized operators, two operands ready for every operator,
/// one value left at the end.
pub proof fn lemma_evaluation_succeeds_iff(input: Seq<Tok>)
    ensures
        (eval_rpn_spec(input) matches Ok(_)) <==> valid_rpn(input),
{
    lemma_eval_ok_iff_from(input, Seq::empty());
}

/// Opening parentheses in the sequence.
pub open spec fn lp_count(s: Seq<Tok>) -> int
    decreases s.len(),
{
    if s.len() == 0 {
        0
    } else {
        (if is_lparen(s[0]) { 1int } else { 0int }) + lp_count(s.drop_first())
    }
}

/// Closing parentheses in the sequence.
pub open spec fn rp_count(s: Seq<Tok>) -> int
    decreases s.len(),
{
    if s.len() == 0 {
        0
    } else {
        (if is_rparen(s[0]) { 1int } else { 0int }) + rp_count(s.drop_first())
    }
}

/// Correct nesting: closings never outnumber openings in any prefix, and the
/// whole sequence holds equally many of each.
pub open spec fn balanced(s: Seq<Tok>) -> bool {
    lp_count(s) == rp_count(s) && (forall|k: int|
        0 <= k <= s.len() ==> rp_count(#[trigger] s.subrange(0, k)) <= lp_count(s.subrange(0, k)))
}

proof fn lemma_counts_concat(a: Seq<Tok>, b: Seq<Tok>)
    ensures
        lp_count(a + b) == lp_count(a) + lp_count(b),
        rp_count(a + b) == rp_count(a) + rp_count(b),
    decreases a.len(),
{
    if a.len() == 0 {
        assert(a + b =~= b);
    } else {
        assert((a + b).drop_first() =~= a.drop_first() + b);
        lemma_counts_concat(a.drop_first(), b);
    }
}

proof fn lemma_counts_singleton(t: Tok)
    ensures
        lp_count(seq![t]) == if is_lparen(t) { 1int } else { 0int },
        rp_count(seq![t]) == if is_rparen(t) { 1int } else { 0int },
{
    assert(seq![t].drop_first() =~= Seq::<Tok>::empty());
    assert(seq![t][0] == t);
    assert(lp_count(Seq::<Tok>::empty()) == 0);
    assert(rp_count(Seq::<Tok>::empty()) == 0);
}

/// The operator stack of the transformation only ever holds operators and
/// opening parentheses.
pub open spec fn stack_wf(s: Seq<Tok>) -> bool {
    forall|j: int| 0 <= j < s.len() ==> is_operator(#[trigger] s[j]) || is_lparen(s[j])
}

proof fn lemma_counts_drop_last(s: Seq<Tok>)
    requires
        s.len() > 0,
    ensures
        lp_count(s) == lp_count(s.drop_last()) + (if is_lparen(s.last()) { 1int } else { 0int }),
        rp_count(s) == rp_count(s.drop_last()) + (if is_rparen(s.last()) { 1int } else { 0int }),
{
    assert(s =~= s.drop_last() + seq![s.last()]);
    lemma_counts_concat(s.drop_last(), seq![s.last()]);
    lemma_counts_singleton(s.last());
}

/// Popping outranked operators moves no parenthesis.
proof fn lemma_pop_ops_stack(stack: Seq<Tok>, out: Seq<Tok>, c: char)
    requires
        stack_wf(stack),
    ensures
        stack_wf(pop_ops(stack, out, c).0),
        lp_count(pop_ops(stack, out, c).0) == lp_count(stack),
    decreases stack.len(),
{
    if stack.len() > 0 && pops(c, stack.last()) {
        lemma_counts_drop_last(stack);
        assert(stack_wf(stack.drop_last()));
        lemma_pop_ops_stack(stack.drop_last(), out.push(stack.last()), c);
    }
}

/// Popping to an opening parenthesis removes exactly one of them, or fails
/// exactly when the stack holds none.
proof fn lemma_pop_to_lparen_stack(stack: Seq<Tok>, out: Seq<Tok>)
    requires
        stack_wf(stack),
    ensures
        match pop_to_lparen(stack, out) {
            None => lp_count(stack) == 0,
            Some(p) => lp_count(stack) >= 1 && stack_wf(p.0) && lp_count(p.0) == lp_count(stack)
                - 1,
        },
    decreases stack.len(),
{
    if stack.len() == 0 {
    } else {
        lemma_counts_drop_last(stack);
        assert(stack_wf(stack.drop_last()));
        lemma_lp_count_nonneg(stack.drop_last());
        assert(is_operator(stack.last()) || is_lparen(stack.last()));
        if !is_lparen(stack.last()) {
            lemma_pop_to_lparen_stack(stack.drop_last(), out.push(stack.last()));
        }
    }
}

/// Draining succeeds exactly when no parenthesis is left on the stack.
proof fn lemma_drain_ok(stack: Seq<Tok>, out: Seq<Tok>)
    requires
        stack_wf(stack),
    ensures
        (drain(stack, out) matches Ok(_)) <==> lp_count(stack) == 0,
    decreases stack.len(),
{
    if stack.len() == 0 {
    } else {
        lemma_counts_drop_last(stack);
        assert(stack_wf(stack.drop_last()));
        lemma_lp_count_nonneg(stack.drop_last());
        assert(is_operator(stack.last()) || is_lparen(stack.last()));
        if !is_lparen(stack.last()) {
            assert(is_operator(stack.last()));
            lemma_drain_ok(stack.drop_last(), out.push(stack.last()));
        }
    }
}

/// Every prefix of the input closes no more than the openings available to
/// it, counting `slack` openings already on the stack.
pub open spec fn prefixes_ok(input: Seq<Tok>, slack: int) -> bool {
    forall|k: int|
        0 <= k <= input.len() ==> rp_count(#[trigger] input.subrange(0, k)) <= lp_count(
            input.subrange(0, k),
        ) + slack
}

/// The transformation succeeds from a state with `slack` open parentheses on
/// the stack exactly under this condition.
pub open spec fn shunt_ok_cond(input: Seq<Tok>, slack: int) -> bool {
    prefixes_ok(input, slack) && lp_count(input) + slack == rp_count(input)
}

/// One consumed token shifts the condition by what it opens or closes.
proof fn lemma_cond_step(input: Seq<Tok>, slack: int)
    requires
        input.len() > 0,
        slack >= 0,
    ensures
        shunt_ok_cond(input, slack) <==> ((is_rparen(input[0]) ==> slack >= 1) && shunt_ok_cond(
            input.drop_first(),
            slack + (if is_lparen(input[0]) { 1int } else { 0int }) - (if is_rparen(input[0]) {
                1int
            } else {
                0int
            }),
        )),
{
    let t = input[0];
    let rest = input.drop_first();
    let dl: int = if is_lparen(t) { 1 } else { 0 };
    let dr: int = if is_rparen(t) { 1 } else { 0 };
    let slack2 = slack + dl - dr;
    assert forall|k: int| 0 <= k <= rest.len() implies input.subrange(0, k + 1) == seq![t]
        + rest.subrange(0, k) by {
        assert(input.subrange(0, k + 1) =~= seq![t] + rest.subrange(0, k));
    }
    assert forall|k: int| 0 <= k <= rest.len() implies rp_count(#[trigger] input.subrange(0, k + 1))
        == dr + rp_count(rest.subrange(0, k)) && lp_count(input.subrange(0, k + 1)) == dl
        + lp_count(rest.subrange(0, k)) by {
        lemma_counts_concat(seq![t], rest.subrange(0, k));
        lemma_counts_singleton(t);
        assert(seq![t].drop_first() =~= Seq::<Tok>::empty());
    }
    assert(input.subrange(0, input.len() as int) =~= input);
    assert(rest.subrange(0, rest.len() as int) =~= rest);
    assert(input.subrange(0, 0) =~= Seq::<Tok>::empty());
    assert(rp_count(Seq::<Tok>::empty()) == 0);
    assert(lp_count(Seq::<Tok>::empty()) == 0);
    if shunt_ok_cond(input, slack) {
        assert(rp_count(input.subrange(0, 1)) <= lp_count(input.subrange(0, 1)) + slack);
        assert(rest.subrange(0, 0) =~= Seq::<Tok>::empty());
        assert(dr <= dl + slack);
        assert forall|k: int| 0 <= k <= rest.len() implies rp_count(
            #[trigger] rest.subrange(0, k),
        ) <= lp_count(rest.subrange(0, k)) + slack2 by {
            assert(rp_count(input.subrange(0, k + 1)) <= lp_count(input.subrange(0, k + 1))
                + slack);
        }
    }
    if (is_rparen(t) ==> slack >= 1) && shunt_ok_cond(rest, slack2) {
        assert forall|k: int| 0 <= k <= input.len() implies rp_count(
            #[trigger] input.subrange(0, k),
        ) <= lp_count(input.subrange(0, k)) + slack by {
            if k == 0 {
            } else {
                assert(rp_count(rest.subrange(0, k - 1)) <= lp_count(rest.subrange(0, k - 1))
                    + slack2);
            }
        }
    }
}

/// From a well-formed stack, the transformation succeeds exactly when the
/// remaining input, with the stack's open parentheses as slack, is balanced.
proof fn lemma_shunt_ok_iff(input: Seq<Tok>, stack: Seq<Tok>, out: Seq<Tok>)
    requires
        stack_wf(stack),
    ensures
        (shunt_from(input, stack, out) matches Ok(_)) <==> shunt_ok_cond(input, lp_count(stack)),
    decreases input.len(),
{
    let slack = lp_count(stack);
    assert(slack >= 0) by {
        lemma_lp_count_nonneg(stack);
    }
    if input.len() == 0 {
        lemma_drain_ok(stack, out);
        assert(input.subrange(0, 0) =~= Seq::<Tok>::empty());
        assert(lp_count(Seq::<Tok>::empty()) == 0);
        assert(rp_count(Seq::<Tok>::empty()) == 0);
        assert(prefixes_ok(input, slack));
    } else {
        let t = input[0];
        let rest = input.drop_first();
        lemma_cond_step(input, slack);
        match t {
            Tok::Number(_) => {
                lemma_shunt_ok_iff(rest, stack, out.push(t));
            },
            Tok::Operator(c) => {
                lemma_pop_ops_stack(stack, out, c);
                let popped = pop_ops(stack, out, c);
                assert(stack_wf(popped.0.push(t)));
                lemma_counts_drop_last(popped.0.push(t));
                assert(popped.0.push(t).drop_last() =~= popped.0);
                lemma_shunt_ok_iff(rest, popped.0.push(t), popped.1);
            },
            Tok::LParen => {
                assert(stack_wf(stack.push(t)));
                lemma_counts_drop_last(stack.push(t));
                assert(stack.push(t).drop_last() =~= stack);
                lemma_shunt_ok_iff(rest, stack.push(t), out);
            },
            Tok::RParen => {
                lemma_pop_to_lparen_stack(stack, out);
                match pop_to_lparen(stack, out) {
                    None => {
                        assert(!(shunt_from(input, stack, out) matches Ok(_)));
                        if shunt_ok_cond(input, slack) {
                            assert(rp_count(input.subrange(0, 1)) <= lp_count(
                                input.subrange(0, 1),
                            ) + slack);
                            assert(input.subrange(0, 1) =~= seq![t]);
                            lemma_counts_singleton(t);
                            assert(false);
                        }
                    },
                    Some(p) => {
                        lemma_shunt_ok_iff(rest, p.0, p.1);
                    },
                }
            },
        }
    }
}

proof fn lemma_lp_count_nonneg(s: Seq<Tok>)
    ensures
        lp_count(s) >= 0,
        rp_count(s) >= 0,
    decreases s.len(),
{
    if s.len() > 0 {
        lemma_lp_count_nonneg(s.drop_first());
    }
}

/// Correctly nested parentheses are exactly what the transformation accepts:
/// it succeeds on every balanced input, and fails with
/// `MismatchedParentheses` on every unbalanced one.
pub proof fn lemma_parenthesis_balance(input: Seq<Tok>)
    ensures
        balanced(input) <==> (shunt_spec(input) matches Ok(_)),
        !balanced(input) ==> shunt_spec(input) == Err::<Seq<Tok>, TransformError>(
            TransformError::MismatchedParentheses,
        ),
{
    assert(lp_count(Seq::<Tok>::empty()) == 0);
    lemma_shunt_ok_iff(input, Seq::empty(), Seq::empty());
    assert(balanced(input) <==> shunt_ok_cond(input, 0));
    if !balanced(input) {
        match shunt_spec(input) {
            Ok(_) => {
                assert(false);
            },
            Err(e) => {
                assert(e == TransformError::MismatchedParentheses);
            },
        }
    }
}

/// Every operator symbol of the expression is recognized.
pub open spec fn ops_known(e: ExprV) -> bool
    decreases e,
{
    match e {
        ExprV::Num(_) => true,
        ExprV::BinOp(c, a, b) => is_op_char(c) && ops_known(*a) && ops_known(*b),
    }
}

/// The fully parenthesized infix rendering of an expression.
pub open spec fn infix_tokens(e: ExprV) -> Seq<Tok>
    decreases e,
{
    match e {
        ExprV::Num(lit) => seq![Tok::Number(lit)],
        ExprV::BinOp(c, a, b) => seq![Tok::LParen] + infix_tokens(*a) + seq![Tok::Operator(c)]
            + infix_tokens(*b) + seq![Tok::RParen],
    }
}

/// The postfix rendering of an expression.
pub open spec fn rpn_tokens(e: ExprV) -> Seq<Tok>
    decreases e,
{
    match e {
        ExprV::Num(lit) => seq![Tok::Number(lit)],
        ExprV::BinOp(c, a, b) => rpn_tokens(*a) + rpn_tokens(*b) + seq![Tok::Operator(c)],
    }
}

/// Transforming the parenthesized rendering of an expression emits exactly
/// its postfix rendering and leaves the operator stack as it was.
proof fn lemma_shunt_expr(e: ExprV, rest: Seq<Tok>, stack: Seq<Tok>, out: Seq<Tok>)
    ensures
        shunt_from(infix_tokens(e) + rest, stack, out) == shunt_from(
            rest,
            stack,
            out + rpn_tokens(e),
        ),
    decreases e,
{
    match e {
        ExprV::Num(lit) => {
            let t = Tok::Number(lit);
            assert((infix_tokens(e) + rest)[0] == t);
            assert((infix_tokens(e) + rest).drop_first() =~= rest);
            assert(out.push(t) =~= out + rpn_tokens(e));
        },
        ExprV::BinOp(c, a, b) => {
            let av = *a;
            let bv = *b;
            let lp = Tok::LParen;
            let rp = Tok::RParen;
            let op = Tok::Operator(c);
            let input = infix_tokens(e) + rest;
            let tail_a = seq![op] + infix_tokens(bv) + seq![rp] + rest;
            let tail_b = seq![rp] + rest;
            // the opening parenthesis goes onto the stack
            assert(input[0] == lp);
            assert(input.drop_first() =~= infix_tokens(av) + tail_a);
            let stack1 = stack.push(lp);
            lemma_shunt_expr(av, tail_a, stack1, out);
            // the operator meets the open parenthesis on top: nothing pops
            let out1 = out + rpn_tokens(av);
            assert(tail_a[0] == op);
            assert(tail_a.drop_first() =~= infix_tokens(bv) + tail_b);
            assert(!pops(c, stack1.last()));
            assert(pop_ops(stack1, out1, c) == (stack1, out1));
            let stack2 = stack1.push(op);
            assert(shunt_from(tail_a, stack1, out1) == shunt_from(
                infix_tokens(bv) + tail_b,
                stack2,
                out1,
            ));
            lemma_shunt_expr(bv, tail_b, stack2, out1);
            // the closing parenthesis pops the operator, discards the opening
            let out2 = out1 + rpn_tokens(bv);
            assert(tail_b[0] == rp);
            assert(tail_b.drop_first() =~= rest);
            assert(stack2.last() == op);
            assert(stack2.drop_last() =~= stack1);
            assert(pop_to_lparen(stack2, out2) == pop_to_lparen(stack1, out2.push(op)));
            assert(stack1.last() == lp);
            assert(stack1.drop_last() =~= stack);
            let popped = (stack, out2.push(op));
            assert(pop_to_lparen(stack1, out2.push(op)) == Some(popped));
            assert(shunt_from(tail_b, stack2, out2) == shunt_from(rest, stack, out2.push(op)));
            assert(out2.push(op) =~= out + rpn_tokens(e));
        },
    }
}

/// Evaluating the postfix rendering of an expression pushes exactly that
/// expression onto the value stack.
proof fn lemma_eval_expr(e: ExprV, rest: Seq<Tok>, stack: Seq<ExprV>)
    requires
        ops_known(e),
    ensures
        eval_from(rpn_tokens(e) + rest, stack) == eval_from(rest, stack.push(e)),
    decreases e,
{
    match e {
        ExprV::Num(lit) => {
            assert((rpn_tokens(e) + rest)[0] == Tok::Number(lit));
            assert((rpn_tokens(e) + rest).drop_first() =~= rest);
            assert(stack.push(ExprV::Num(lit)) == stack.push(e));
        },
        ExprV::BinOp(c, a, b) => {
            let av = *a;
            let bv = *b;
            let op = Tok::Operator(c);
            let tail_a = rpn_tokens(bv) + seq![op] + rest;
            let tail_b = seq![op] + rest;
            assert(rpn_tokens(e) + rest =~= rpn_tokens(av) + tail_a);
            lemma_eval_expr(av, tail_a, stack);
            let stack1 = stack.push(av);
            assert(tail_a =~= rpn_tokens(bv) + tail_b);
            lemma_eval_expr(bv, tail_b, stack1);
            let stack2 = stack1.push(bv);
            assert(tail_b[0] == op);
            assert(tail_b.drop_first() =~= rest);
            assert(stack2.len() >= 2);
            assert(stack2.last() == bv);
            assert(stack2[stack2.len() - 2] == av);
            assert(stack2.drop_last().drop_last() =~= stack);
            let combined = ExprV::BinOp(c, Box::new(av), Box::new(bv));
            assert(combined == e);
            assert(eval_from(tail_b, stack2) == eval_from(rest, stack.push(e)));
        },
    }
}

/// Round trip under explicit parentheses: the parenthesized infix rendering
/// of any expression transforms into exactly its postfix rendering, and
/// evaluating that postfix rendering returns exactly the expression again.
/// Evaluating the transformed sequence therefore agrees with a reference
/// evaluation of the expression itself, whatever its operators' precedences
/// and associativity.
pub proof fn lemma_round_trip_precedence(e: ExprV)
    requires
        ops_known(e),
    ensures
        shunt_spec(infix_tokens(e)) == Ok::<Seq<Tok>, TransformError>(rpn_tokens(e)),
        eval_rpn_spec(rpn_tokens(e)) == Ok::<ExprV, EvalError>(e),
{
    lemma_shunt_expr(e, Seq::empty(), Seq::empty(), Seq::empty());
    assert(infix_tokens(e) + Seq::<Tok>::empty() =~= infix_tokens(e));
    assert(Seq::<Tok>::empty() + rpn_tokens(e) =~= rpn_tokens(e));
    assert(shunt_from(Seq::<Tok>::empty(), Seq::<Tok>::empty(), rpn_tokens(e))
        == Ok::<Seq<Tok>, TransformError>(rpn_tokens(e)));
    lemma_eval_expr(e, Seq::empty(), Seq::empty());
    assert(rpn_tokens(e) + Seq::<Tok>::empty() =~= rpn_tokens(e));
    let stack1 = Seq::<ExprV>::empty().push(e);
    assert(eval_from(Seq::<Tok>::empty(), stack1) == Ok::<ExprV, EvalError>(stack1[0]));
    assert(stack1[0] == e);
}

} // verus!
