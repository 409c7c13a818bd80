use vstd::prelude::*;
use crate::value::Value;

verus! {

/// The smallest unit that an expression is made of.
#[derive(Debug, PartialEq, Eq)]
pub enum Token {
    /// A numeric value: a literal as the tokenizer found it, or a running
    /// total that the evaluator has put in its place.
    Number(Value),
    /// One of the characters `+ - * / % ( )`.
    Operator(char),
    /// No token yet: what a lookahead slot holds before it is primed.
    Empty,
    /// No more input.
    End,
}

/// The characters that make an operator token.
pub open spec fn is_operator(c: char) -> bool {
    c == '+' || c == '-' || c == '*' || c == '/' || c == '%' || c == '(' || c == ')'
}

impl Token {
    /// The value of a `Number`, and nothing for any other token.
    pub fn get_number(self) -> (r: Option<Value>)
        ensures
            r == (match self {
                Token::Number(v) => Some(v),
                _ => None,
            }),
    {
        match self {
            Token::Number(number) => Some(number),
            _ => None,
        }
    }

    /// Whether this token is the operator `symbol`.
    pub fn is_symbol(&self, symbol: char) -> (r: bool)
        ensures
            r == (*self == Token::Operator(symbol)),
    {
        match self {
            Token::Operator(c) => *c == symbol,
            _ => false,
        }
    }

    /// Whether this token is `End`.
    pub fn is_end(&self) -> (r: bool)
        ensures
            r == (*self == Token::End),
    {
        match self {
            Token::End => true,
            _ => false,
        }
    }
}

} // verus!
