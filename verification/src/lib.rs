//! A calculator for one line of arithmetic: integer literals, the binary
//! operators `+ - * /`, unary signs and parentheses.
//!
//! The tokenizer also knows `%`, but no level of the grammar takes it: a
//! line that holds it does not evaluate. Where it follows a complete
//! expression, as in `2%3`, the line is an invalid expression.
//!
//! The tokenizer ([`lexer`]) cuts the line into tokens, and the evaluator
//! ([`parser`]) reads them in one pass through two slots of lookahead. What
//! the evaluator does is defined, slot by slot, in [`machine`]. That this is
//! the usual reading of arithmetic notation is proved in [`syntax`], that
//! white space around the tokens has no part in it in [`spelling`], and
//! that nothing but such notation evaluates in [`witness`].
//! The result is a [`Value`]: the operations that the line asks for, ready
//! to be carried out in the caller's numeric type.

use vstd::prelude::*;

pub mod error;
pub mod lexer;
pub mod machine;
pub mod parser;
pub mod scan;
pub mod spelling;
pub mod syntax;
pub mod token;
pub mod value;
pub mod witness;

pub use crate::error::{EvalError, LexError};
pub use crate::lexer::Lexer;
pub use crate::parser::Parser;
pub use crate::scan::Scan;
pub use crate::token::Token;
pub use crate::value::Value;

verus! {

/// Tests whether `line` holds nothing but white space: the line that ends a
/// session.
pub fn is_blank(line: &str) -> (r: bool)
    ensures
        r == spelling::blank(line@),
{
    let chars = lexer::characters(line);
    let mut i: usize = 0;
    while i < chars.len()
        invariant
            i <= chars.len(),
            chars@ == line@,
            forall|k: int| 0 <= k < i ==> lexer::is_space(#[trigger] chars@[k]),
        decreases chars.len() - i,
    {
        if !lexer::is_whitespace(chars[i]) {
            return false;
        }
        i = i + 1;
    }
    true
}

/// Evaluates one line: cuts it into tokens and evaluates the expression
/// that they make.
pub fn evaluate(line: String) -> (r: Result<Value, EvalError>)
    ensures
        r == machine::evaluation(lexer::token_stream(line@)),
{
    let mut lexer = Lexer::new(line);
    let mut parser = Parser::new(&mut lexer);
    parser.eval()
}

} // verus!
