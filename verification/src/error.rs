use vstd::prelude::*;

verus! {

/// Why the tokenizer could not produce a token.
#[derive(Debug, Clone, Copy, PartialEq, Eq)]
pub enum LexError {
    /// The input holds a character that starts no token.
    UnrecognizedCharacter(char),
    /// A run of digits stands for a number above `u64::MAX`.
    NumberTooLarge,
}

/// Why a line could not be evaluated.
#[derive(Debug, Clone, Copy, PartialEq, Eq)]
pub enum EvalError {
    /// An opening parenthesis whose group is not followed by `)`.
    UnmatchedBracket,
    /// A token stands where a number, a sign or `(` has to stand.
    InvalidOperator,
    /// A grammar level ended without a number in hand.
    ErrorOccurred,
    /// Tokens are left over after a complete expression.
    InvalidExpression,
    /// The tokenizer failed.
    Lex(LexError),
}

impl LexError {
    /// The diagnostic for this error, as a sequence of characters.
    pub open spec fn text(self) -> Seq<char> {
        match self {
            LexError::UnrecognizedCharacter(_) => "unrecognized character"@,
            LexError::NumberTooLarge => "number too large"@,
        }
    }

    /// The diagnostic to show for this error.
    pub fn message(&self) -> (r: &'static str)
        ensures
            r@ == self.text(),
    {
        match self {
            LexError::UnrecognizedCharacter(_) => "unrecognized character",
            LexError::NumberTooLarge => "number too large",
        }
    }
}

impl EvalError {
    /// The diagnostic for this error, as a sequence of characters.
    pub open spec fn text(self) -> Seq<char> {
        match self {
            EvalError::UnmatchedBracket => "unmatched bracket"@,
            EvalError::InvalidOperator => "invalid operator"@,
            EvalError::ErrorOccurred => "error occurred"@,
            EvalError::InvalidExpression => "invalid expression"@,
            EvalError::Lex(e) => e.text(),
        }
    }

    /// The diagnostic to show for this error.
    pub fn message(&self) -> (r: &'static str)
        ensures
            r@ == self.text(),
    {
        match self {
            EvalError::UnmatchedBracket => "unmatched bracket",
            EvalError::InvalidOperator => "invalid operator",
            EvalError::ErrorOccurred => "error occurred",
            EvalError::InvalidExpression => "invalid expression",
            EvalError::Lex(e) => e.message(),
        }
    }
}

} // verus!
