use vstd::prelude::*;
use crate::error::LexError;
use crate::token::Token;

verus! {

/// What a tokenizer still has to give: the tokens to come, in order, and how
/// the input ends after them.
pub struct Stream {
    /// The tokens that the coming requests return, first to last.
    pub tokens: Seq<Token>,
    /// The failure that every request after those tokens meets. Where there
    /// is none, every such request is answered with `End`.
    pub fault: Option<LexError>,
}

impl Stream {
    /// The answer to the next request.
    pub open spec fn head(self) -> Result<Token, LexError> {
        if self.tokens.len() > 0 {
            Ok(self.tokens[0])
        } else {
            match self.fault {
                Some(e) => Err(e),
                None => Ok(Token::End),
            }
        }
    }

    /// What is left to give once the next request is answered. A request
    /// that finds no token takes nothing away.
    pub open spec fn tail(self) -> Stream {
        if self.tokens.len() > 0 {
            Stream { tokens: self.tokens.skip(1), fault: self.fault }
        } else {
            self
        }
    }
}

/// A source of tokens that hands them out one by one and never takes one
/// back.
pub trait Scan {
    /// What this source still has to give.
    spec fn upcoming(&self) -> Stream;

    /// Hands out the next token.
    fn next(&mut self) -> (r: Result<Token, LexError>)
        ensures
            r == old(self).upcoming().head(),
            final(self).upcoming() == old(self).upcoming().tail(),
    ;
}

} // verus!
