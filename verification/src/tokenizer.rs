//! Tokenization: from the characters of an infix expression to a token
//! sequence, or a failure on the first character that fits no token.

use vstd::prelude::*;
use crate::token::{Type, Tok, Token, toks, wf_tokens, is_op_char};

verus! {

/// Failure of tokenization: a malformed numeric literal, or a character
/// outside the recognized grammar.
#[derive(Debug)]
pub enum TokenizeError {
    InvalidNumber(Vec<char>),
    UnknownCharacter(char),
}

/// Mathematical counterpart of `TokenizeError`.
pub enum TokErr {
    InvalidNumber(Seq<char>),
    UnknownCharacter(char),
}

impl View for TokenizeError {
    type V = TokErr;

    open spec fn view(&self) -> TokErr {
        match self {
            TokenizeError::InvalidNumber(lit) => TokErr::InvalidNumber(lit@),
            TokenizeError::UnknownCharacter(c) => TokErr::UnknownCharacter(*c),
        }
    }
}

/// A decimal digit.
pub open spec fn is_digit(c: char) -> bool {
    '0' as u32 <= c as u32 && c as u32 <= '9' as u32
}

/// A character that may stand inside a number literal: a digit or a dot.
pub open spec fn is_num_char(c: char) -> bool {
    is_digit(c) || c == '.'
}

/// How many dots a literal holds.
pub open spec fn dot_count(s: Seq<char>) -> nat
    decreases s.len(),
{
    if s.len() == 0 {
        0
    } else {
        dot_count(s.drop_last()) + if s.last() == '.' { 1nat } else { 0nat }
    }
}

/// Whether the literal holds at least one digit.
pub open spec fn has_digit(s: Seq<char>) -> bool
    decreases s.len(),
{
    if s.len() == 0 {
        false
    } else {
        has_digit(s.drop_last()) || is_digit(s.last())
    }
}

/// A string of digits and dots reads as a floating-point literal exactly when
/// it has at least one digit and at most one dot.
pub open spec fn valid_number(s: Seq<char>) -> bool {
    has_digit(s) && dot_count(s) <= 1
}

/// The first position at or after `i` that does not continue a number
/// literal; the literal starting at `i` spans `s[i .. num_end(s, i)]`.
pub open spec fn num_end(s: Seq<char>, i: int) -> int
    decreases s.len() - i,
{
    if i < 0 || i >= s.len() || !is_num_char(s[i]) {
        i
    } else {
        num_end(s, i + 1)
    }
}

pub proof fn lemma_num_end_bounds(s: Seq<char>, i: int)
    ensures
        i <= num_end(s, i),
        i <= s.len() ==> num_end(s, i) <= s.len(),
    decreases s.len() - i,
{
    if !(i < 0 || i >= s.len() || !is_num_char(s[i])) {
        lemma_num_end_bounds(s, i + 1);
    }
}

/// A scan that saw number characters on `s[i .. j]` and stopped at `j` has
/// found exactly `num_end(s, i)`.
pub proof fn lemma_num_end_of(s: Seq<char>, i: int, j: int)
    requires
        0 <= i <= j <= s.len(),
        forall|k: int| i <= k < j ==> is_num_char(s[k]),
        j == s.len() || !is_num_char(s[j]),
    ensures
        num_end(s, i) == j,
    decreases j - i,
{
    if i < j {
        lemma_num_end_of(s, i + 1, j);
    }
}

/// The tokens read from `s[i..]`, or the first failure: spaces are skipped,
/// operator and parenthesis characters are single tokens, a digit or dot
/// starts a greedy number literal, anything else is unknown.
pub open spec fn tokenize_from(s: Seq<char>, i: int) -> Result<Seq<Tok>, TokErr>
    decreases s.len() - i,
    via tokenize_from_decreases
{
    if i < 0 || i >= s.len() {
        Ok(Seq::empty())
    } else if s[i] == ' ' {
        tokenize_from(s, i + 1)
    } else if is_op_char(s[i]) {
        match tokenize_from(s, i + 1) {
            Ok(rest) => Ok(seq![Tok::Operator(s[i])] + rest),
            Err(e) => Err(e),
        }
    } else if s[i] == '(' {
        match tokenize_from(s, i + 1) {
            Ok(rest) => Ok(seq![Tok::LParen] + rest),
            Err(e) => Err(e),
        }
    } else if s[i] == ')' {
        match tokenize_from(s, i + 1) {
            Ok(rest) => Ok(seq![Tok::RParen] + rest),
            Err(e) => Err(e),
        }
    } else if is_num_char(s[i]) {
        let j = num_end(s, i);
        let lit = s.subrange(i, j);
        if valid_number(lit) {
            match tokenize_from(s, j) {
                Ok(rest) => Ok(seq![Tok::Number(lit)] + rest),
                Err(e) => Err(e),
            }
        } else {
            Err(TokErr::InvalidNumber(lit))
        }
    } else {
        Err(TokErr::UnknownCharacter(s[i]))
    }
}

#[via_fn]
proof fn tokenize_from_decreases(s: Seq<char>, i: int) {
    if 0 <= i < s.len() && is_num_char(s[i]) {
        lemma_num_end_bounds(s, i + 1);
    }
}

/// The tokens of the whole input.
pub open spec fn tokenize_spec(s: Seq<char>) -> Result<Seq<Tok>, TokErr> {
    tokenize_from(s, 0)
}

/// Prefix some already-read tokens onto the outcome of reading the rest.
pub open spec fn prepend_tokens(pre: Seq<Tok>, r: Result<Seq<Tok>, TokErr>) -> Result<
    Seq<Tok>,
    TokErr,
> {
    match r {
        Ok(rest) => Ok(pre + rest),
        Err(e) => Err(e),
    }
}

/// A decimal digit, decided in executable code.
fn is_digit_char(c: char) -> (r: bool)
    ensures
        r == is_digit(c),
{
    let d = c as u32;
    48 <= d && d <= 57
}

/// Whether position `j` continues a number literal.
fn num_continues(input: &str, j: usize) -> (r: bool)
    ensures
        r == (j < input@.len() && is_num_char(input@[j as int])),
{
    if j < input.unicode_len() {
        let c = input.get_char(j);
        is_digit_char(c) || c == '.'
    } else {
        false
    }
}

/// Convert the characters of an infix expression into a token sequence.
///
/// Whitespace separates tokens and is dropped; `+ - * / ^` become operator
/// tokens; parentheses become grouping tokens; a digit or dot starts a number
/// literal read greedily over digits and dots. The first character that fits
/// no token, or a literal with no digit or more than one dot, is the error.
pub fn tokenize(input: &str) -> (r: Result<Vec<Token>, TokenizeError>)
    ensures
        match r {
            Ok(tokens) => tokenize_spec(input@) == Ok::<Seq<Tok>, TokErr>(toks(tokens@))
                && wf_tokens(tokens@),
            Err(e) => tokenize_spec(input@) == Err::<Seq<Tok>, TokErr>(e@),
        },
{
    let ghost s = input@;
    let n = input.unicode_len();
    let mut tokens: Vec<Token> = Vec::new();
    let mut i: usize = 0;
    while i < n
        invariant
            n == s.len(),
            s == input@,
            i <= n,
            wf_tokens(tokens@),
            tokenize_from(s, 0) == prepend_tokens(toks(tokens@), tokenize_from(s, i as int)),
        decreases n - i,
    {
        let c = input.get_char(i);
        let ghost pre = toks(tokens@);
        let ghost i0 = i as int;
        if c == ' ' {
            i = i + 1;
        } else if c == '+' || c == '-' || c == '*' || c == '/' || c == '^' {
            tokens.push(Token::new(Type::Operator(c)));
            i = i + 1;
            proof {
                assert(toks(tokens@) =~= pre.push(Tok::Operator(c)));
                lemma_step(s, pre, i0, i as int, Tok::Operator(c), tokens@);
            }
        } else if c == '(' {
            tokens.push(Token::new(Type::LParen));
            i = i + 1;
            proof {
                assert(toks(tokens@) =~= pre.push(Tok::LParen));
                lemma_step(s, pre, i0, i as int, Tok::LParen, tokens@);
            }
        } else if c == ')' {
            tokens.push(Token::new(Type::RParen));
            i = i + 1;
            proof {
                assert(toks(tokens@) =~= pre.push(Tok::RParen));
                lemma_step(s, pre, i0, i as int, Tok::RParen, tokens@);
            }
        } else if is_digit_char(c) || c == '.' {
            let mut lit: Vec<char> = Vec::new();
            lit.push(c);
            let mut saw_digit = is_digit_char(c);
            let mut dots: usize = if c == '.' {
                1
            } else {
                0
            };
            let mut j: usize = i + 1;
            proof {
                assert(lit@ =~= s.subrange(i0, j as int));
                assert(lit@.drop_last() =~= Seq::<char>::empty());
                assert(!has_digit(Seq::<char>::empty()));
                assert(dot_count(Seq::<char>::empty()) == 0);
                assert(has_digit(lit@) == is_digit(c));
                assert(dot_count(lit@) == if c == '.' { 1nat } else { 0nat });
            }
            while num_continues(input, j)
                invariant
                    n == s.len(),
                    s == input@,
                    i0 == i as int,
                    i < j <= n,
                    lit@ == s.subrange(i0, j as int),
                    forall|k: int| i0 <= k < j ==> is_num_char(s[k]),
                    saw_digit == has_digit(lit@),
                    dots == dot_count(lit@),
                    dots <= j,
                decreases n - j,
            {
                let c2 = input.get_char(j);
                let ghost old_lit = lit@;
                lit.push(c2);
                if is_digit_char(c2) {
                    saw_digit = true;
                }
                if c2 == '.' {
                    dots = dots + 1;
                }
                j = j + 1;
                proof {
                    assert(lit@.drop_last() =~= old_lit);
                    assert(lit@ =~= s.subrange(i0, j as int));
                }
            }
            proof {
                lemma_num_end_of(s, i0, j as int);
            }
            if saw_digit && dots <= 1 {
                let ghost lit_v = lit@;
                tokens.push(Token::new(Type::Number(lit)));
                i = j;
                proof {
                    assert(toks(tokens@) =~= pre.push(Tok::Number(lit_v)));
                    lemma_step_number(s, pre, i0, i as int, lit_v, tokens@);
                }
            } else {
                proof {
                    assert(tokenize_from(s, i0) == Err::<Seq<Tok>, TokErr>(
                        TokErr::InvalidNumber(lit@),
                    ));
                }
                return Err(TokenizeError::InvalidNumber(lit));
            }
        } else {
            proof {
                assert(tokenize_from(s, i0) == Err::<Seq<Tok>, TokErr>(TokErr::UnknownCharacter(c)));
            }
            return Err(TokenizeError::UnknownCharacter(c));
        }
    }
    proof {
        assert(toks(tokens@) + Seq::<Tok>::empty() =~= toks(tokens@));
    }
    Ok(tokens)
}

/// One single-character token read at `i` extends the tokens already read.
proof fn lemma_step(s: Seq<char>, pre: Seq<Tok>, i: int, j: int, t: Tok, ts: Seq<Token>)
    requires
        0 <= i < s.len(),
        j == i + 1,
        tokenize_from(s, 0) == prepend_tokens(pre, tokenize_from(s, i)),
        tokenize_from(s, i) == prepend_tokens(seq![t], tokenize_from(s, j)),
        toks(ts) == pre.push(t),
    ensures
        tokenize_from(s, 0) == prepend_tokens(toks(ts), tokenize_from(s, j)),
{
    match tokenize_from(s, j) {
        Ok(rest) => {
            assert(pre + (seq![t] + rest) =~= toks(ts) + rest);
        },
        Err(_) => {},
    }
}

/// A number literal read on `s[i .. j]` extends the tokens already read.
proof fn lemma_step_number(s: Seq<char>, pre: Seq<Tok>, i: int, j: int, lit: Seq<char>, ts: Seq<Token>)
    requires
        0 <= i <= j <= s.len(),
        tokenize_from(s, 0) == prepend_tokens(pre, tokenize_from(s, i)),
        tokenize_from(s, i) == prepend_tokens(seq![Tok::Number(lit)], tokenize_from(s, j)),
        toks(ts) == pre.push(Tok::Number(lit)),
    ensures
        tokenize_from(s, 0) == prepend_tokens(toks(ts), tokenize_from(s, j)),
{
    match tokenize_from(s, j) {
        Ok(rest) => {
            assert(pre + (seq![Tok::Number(lit)] + rest) =~= toks(ts) + rest);
        },
        Err(_) => {},
    }
}

} // verus!
