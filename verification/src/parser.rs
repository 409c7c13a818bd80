use vstd::prelude::*;
use crate::error::EvalError;
use crate::machine::{
    additive, evaluation, is_scaling, lemma_additive_resumes, lemma_levels,
    lemma_multiplicative_resumes, lemma_number_stays, lemma_session_has_no_memory,
    lemma_shift_size, multiplicative, primary, session, unary, Registers,
};
use crate::scan::Scan;
use crate::token::Token;
use crate::value::Value;

verus! {

/// Evaluates the expression that a tokenizer delivers, in one pass and
/// with two tokens of lookahead.
pub struct Parser<'a, T> {
    lexer: &'a mut T,
    current: Token,
    look_ahead: Token,
}

impl<'a, T: Scan> Parser<'a, T> {
    /// The evaluator's state: its two slots and what its tokenizer still has
    /// to give.
    pub closed spec fn view(&self) -> Registers {
        Registers {
            current: self.current,
            look_ahead: self.look_ahead,
            input: self.lexer.upcoming(),
        }
    }

    /// An evaluator over `lexer`, with both slots empty and nothing read.
    pub fn new(lexer: &'a mut T) -> (p: Self)
        ensures
            p@ == Registers::fresh(old(lexer).upcoming()),
    {
        Parser { lexer, current: Token::Empty, look_ahead: Token::Empty }
    }

    /// Returns the current token, promotes the lookahead and reads a fresh
    /// token ahead. Where the tokenizer fails, nothing changes.
    fn shift(&mut self) -> (r: Result<Token, EvalError>)
        ensures
            old(self)@.can_shift() ==> r == Ok::<Token, EvalError>(old(self)@.current)
                && final(self)@ == old(self)@.shifted(),
            !old(self)@.can_shift() ==> r == Err::<Token, EvalError>(old(self)@.shift_error())
                && final(self)@ == old(self)@,
    {
        match self.lexer.next() {
            Ok(fresh) => {
                let mut token = fresh;
                core::mem::swap(&mut self.look_ahead, &mut token);
                core::mem::swap(&mut self.current, &mut token);
                Ok(token)
            },
            Err(e) => Err(EvalError::Lex(e)),
        }
    }

    /// Takes the value out of the current slot, which is left empty.
    fn take_total(&mut self) -> (r: Result<Value, EvalError>)
        ensures
            final(self)@ == old(self)@.holding(Token::Empty),
            old(self)@.current is Number ==> r == Ok::<Value, EvalError>(old(self)@.total()),
            !(old(self)@.current is Number) ==> r == Err::<Value, EvalError>(
                EvalError::ErrorOccurred,
            ),
    {
        let mut token = Token::Empty;
        core::mem::swap(&mut self.current, &mut token);
        match token.get_number() {
            Some(v) => Ok(v),
            None => Err(EvalError::ErrorOccurred),
        }
    }

    /// The primary level. On success the value is in the current slot.
    fn eval_primary_expr(&mut self) -> (r: Result<(), EvalError>)
        ensures
            final(self)@ == primary(old(self)@).state,
            r == primary(old(self)@).verdict(),
        decreases old(self)@.size(), 0nat,
    {
        if self.current.is_symbol('(') {
            proof {
                lemma_levels(self@.shifted());
                if self@.can_shift() {
                    lemma_shift_size(self@);
                }
            }
            match self.shift() {
                Err(e) => {
                    return Err(e);
                },
                Ok(_) => {},
            }
            match self.eval_add_expr() {
                Err(e) => {
                    return Err(e);
                },
                Ok(_) => {},
            }
            if self.look_ahead.is_symbol(')') {
                match self.shift() {
                    Err(e) => Err(e),
                    Ok(total) => {
                        self.current = total;
                        Ok(())
                    },
                }
            } else {
                Err(EvalError::UnmatchedBracket)
            }
        } else {
            match &self.current {
                Token::Number(_) => Ok(()),
                _ => Err(EvalError::InvalidOperator),
            }
        }
    }

    /// The unary level. On success the value is in the current slot.
    fn eval_unary_expr(&mut self) -> (r: Result<(), EvalError>)
        ensures
            final(self)@ == unary(old(self)@).state,
            r == unary(old(self)@).verdict(),
        decreases old(self)@.size(), 1nat,
    {
        if self.current.is_symbol('+') || self.current.is_symbol('-') {
            proof {
                lemma_levels(self@.shifted());
                if self@.can_shift() {
                    lemma_shift_size(self@);
                }
            }
            let operator = match self.shift() {
                Err(e) => {
                    return Err(e);
                },
                Ok(t) => t,
            };
            match self.eval_primary_expr() {
                Err(e) => {
                    return Err(e);
                },
                Ok(_) => {},
            }
            let operand = match self.take_total() {
                Err(e) => {
                    return Err(e);
                },
                Ok(v) => v,
            };
            let result = if operator.is_symbol('-') {
                Value::Negated(Box::new(operand))
            } else {
                operand
            };
            self.current = Token::Number(result);
            Ok(())
        } else {
            self.eval_primary_expr()
        }
    }

    /// The multiplicative level. On success the value is in the current slot.
    fn eval_mul_expr(&mut self) -> (r: Result<(), EvalError>)
        ensures
            final(self)@ == multiplicative(old(self)@).state,
            r == multiplicative(old(self)@).verdict(),
        decreases old(self)@.size(), 2nat,
    {
        let ghost start = self@;
        proof {
            lemma_levels(start);
        }
        match self.eval_unary_expr() {
            Err(e) => {
                return Err(e);
            },
            Ok(_) => {},
        }
        proof {
            lemma_multiplicative_resumes(start);
        }
        loop
            invariant
                self@.current is Number,
                self@.size() <= start.size(),
                multiplicative(self@) == multiplicative(start),
                start == old(self)@,
            decreases self@.size(),
        {
            let ghost first = self@;
            proof {
                lemma_levels(first);
                lemma_number_stays(first);
                lemma_levels(first.shifted().shifted());
                if first.can_shift() {
                    lemma_shift_size(first);
                    if first.shifted().can_shift() {
                        lemma_shift_size(first.shifted());
                    }
                }
            }
            if !(self.look_ahead.is_symbol('*') || self.look_ahead.is_symbol('/')) {
                return Ok(());
            }
            let left = match self.shift() {
                Err(e) => {
                    return Err(e);
                },
                Ok(t) => t,
            };
            let operator = match self.shift() {
                Err(e) => {
                    return Err(e);
                },
                Ok(t) => t,
            };
            match self.eval_unary_expr() {
                Err(e) => {
                    return Err(e);
                },
                Ok(_) => {},
            }
            let right = match self.take_total() {
                Err(e) => {
                    return Err(e);
                },
                Ok(v) => v,
            };
            let left = match left.get_number() {
                Some(v) => v,
                None => {
                    return Err(EvalError::ErrorOccurred);
                },
            };
            let result = if operator.is_symbol('*') {
                Value::Product(Box::new(left), Box::new(right))
            } else {
                Value::Quotient(Box::new(left), Box::new(right))
            };
            self.current = Token::Number(result);
            proof {
                lemma_levels(self@);
            }
        }
    }

    /// The additive level. On success the value is in the current slot.
    fn eval_add_expr(&mut self) -> (r: Result<(), EvalError>)
        ensures
            final(self)@ == additive(old(self)@).state,
            r == additive(old(self)@).verdict(),
        decreases old(self)@.size(), 3nat,
    {
        let ghost start = self@;
        proof {
            lemma_levels(start);
        }
        match self.eval_mul_expr() {
            Err(e) => {
                return Err(e);
            },
            Ok(_) => {},
        }
        proof {
            lemma_additive_resumes(start);
        }
        loop
            invariant
                self@.current is Number,
                !is_scaling(self@.look_ahead),
                self@.size() <= start.size(),
                additive(self@) == additive(start),
                start == old(self)@,
            decreases self@.size(),
        {
            let ghost first = self@;
            proof {
                lemma_levels(first);
                lemma_number_stays(first);
                lemma_levels(first.shifted().shifted());
                if first.can_shift() {
                    lemma_shift_size(first);
                    if first.shifted().can_shift() {
                        lemma_shift_size(first.shifted());
                    }
                }
            }
            if !(self.look_ahead.is_symbol('+') || self.look_ahead.is_symbol('-')) {
                return Ok(());
            }
            let left = match self.shift() {
                Err(e) => {
                    return Err(e);
                },
                Ok(t) => t,
            };
            let operator = match self.shift() {
                Err(e) => {
                    return Err(e);
                },
                Ok(t) => t,
            };
            match self.eval_mul_expr() {
                Err(e) => {
                    return Err(e);
                },
                Ok(_) => {},
            }
            let right = match self.take_total() {
                Err(e) => {
                    return Err(e);
                },
                Ok(v) => v,
            };
            let left = match left.get_number() {
                Some(v) => v,
                None => {
                    return Err(EvalError::ErrorOccurred);
                },
            };
            let result = if operator.is_symbol('+') {
                Value::Sum(Box::new(left), Box::new(right))
            } else {
                Value::Difference(Box::new(left), Box::new(right))
            };
            self.current = Token::Number(result);
            proof {
                lemma_levels(self@);
            }
        }
    }

    /// Evaluates the expression that the tokenizer delivers: primes the two
    /// slots, evaluates the additive level and, where that succeeds,
    /// requires that no token is left over. The first failure is returned
    /// as it is.
    pub fn eval(&mut self) -> (r: Result<Value, EvalError>)
        ensures
            r == evaluation(old(self)@.input),
            r == session(old(self)@).result,
            final(self)@ == session(old(self)@).state,
    {
        proof {
            lemma_session_has_no_memory(self@);
        }
        match self.shift() {
            Err(e) => {
                return Err(e);
            },
            Ok(_) => {},
        }
        match self.shift() {
            Err(e) => {
                return Err(e);
            },
            Ok(_) => {},
        }
        proof {
            lemma_levels(self@);
        }
        let result = self.eval_add_expr();
        match result {
            Err(e) => Err(e),
            Ok(_) => if self.look_ahead.is_end() {
                self.take_total()
            } else {
                Err(EvalError::InvalidExpression)
            },
        }
    }
}

} // verus!
