//! Tokens of an arithmetic expression and their precedence ranks.

use vstd::prelude::*;

verus! {

/// The kind of a token: a numeric literal (kept as the characters it was
/// written with), a single-character operator, or a grouping parenthesis.
pub enum Type {
    Number(Vec<char>),
    Operator(char),
    LParen,
    RParen,
}

/// Mathematical counterpart of `Type`: the literal is a sequence of characters.
pub enum Tok {
    Number(Seq<char>),
    Operator(char),
    LParen,
    RParen,
}

impl View for Type {
    type V = Tok;

    open spec fn view(&self) -> Tok {
        match self {
            Type::Number(lit) => Tok::Number(lit@),
            Type::Operator(c) => Tok::Operator(*c),
            Type::LParen => Tok::LParen,
            Type::RParen => Tok::RParen,
        }
    }
}

/// Whether a token is a number.
pub open spec fn is_number(t: Tok) -> bool {
    t matches Tok::Number(_)
}

/// Whether a token is an operator.
pub open spec fn is_operator(t: Tok) -> bool {
    t matches Tok::Operator(_)
}

/// Whether a token is an opening parenthesis.
pub open spec fn is_lparen(t: Tok) -> bool {
    t matches Tok::LParen
}

/// Whether a token is a closing parenthesis.
pub open spec fn is_rparen(t: Tok) -> bool {
    t matches Tok::RParen
}

/// The five recognized operator symbols.
pub open spec fn is_op_char(c: char) -> bool {
    c == '+' || c == '-' || c == '*' || c == '/' || c == '^'
}

/// Precedence rank of an operator symbol: `+ -` bind loosest, then `* /`,
/// then `^`; any other symbol ranks zero.
pub open spec fn op_precedence(c: char) -> u8 {
    if c == '+' || c == '-' {
        1
    } else if c == '*' || c == '/' {
        2
    } else if c == '^' {
        3
    } else {
        0
    }
}

/// Precedence rank of a token: operators rank by their symbol, every other
/// token ranks zero and never takes part in a precedence comparison.
pub open spec fn tok_precedence(t: Tok) -> u8 {
    match t {
        Tok::Operator(c) => op_precedence(c),
        _ => 0,
    }
}

/// A token: its kind together with its precedence rank, fixed at construction.
pub struct Token {
    pub typ: Type,
    pub precedence: u8,
}

impl View for Token {
    type V = Tok;

    open spec fn view(&self) -> Tok {
        self.typ@
    }
}

/// A token is well formed when its stored precedence is exactly the rank
/// derived from its kind.
pub open spec fn wf_token(t: Token) -> bool {
    t.precedence == tok_precedence(t@)
}

/// Every token of the sequence is well formed.
pub open spec fn wf_tokens(ts: Seq<Token>) -> bool {
    forall|k: int| 0 <= k < ts.len() ==> wf_token(ts[k])
}

/// The mathematical view of a token sequence.
pub open spec fn toks(ts: Seq<Token>) -> Seq<Tok> {
    ts.map_values(|t: Token| t@)
}

impl Token {
    /// Build a token from its kind, deriving the precedence rank once.
    pub fn new(typ: Type) -> (r: Token)
        ensures
            r@ == typ@,
            wf_token(r),
    {
        let precedence: u8 = match &typ {
            Type::Number(_) => 0,
            Type::Operator(op) => match *op {
                '+' | '-' => 1,
                '*' | '/' => 2,
                '^' => 3,
                _ => 0,
            },
            Type::LParen | Type::RParen => 0,
        };
        Token { typ, precedence }
    }
}

impl Clone for Type {
    /// A clone has the same mathematical view as the original.
    fn clone(&self) -> (r: Type)
        ensures
            r@ == self@,
    {
        match self {
            Type::Number(lit) => Type::Number(lit.clone()),
            Type::Operator(c) => Type::Operator(*c),
            Type::LParen => Type::LParen,
            Type::RParen => Type::RParen,
        }
    }
}

impl Clone for Token {
    /// A clone has the same view and the same stored precedence.
    fn clone(&self) -> (r: Token)
        ensures
            r@ == self@,
            r.precedence == self.precedence,
    {
        Token { typ: self.typ.clone(), precedence: self.precedence }
    }
}

} // verus!
