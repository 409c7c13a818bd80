use vstd::prelude::*;
use crate::error::EvalError;
use crate::scan::Stream;
use crate::token::Token;
use crate::value::Value;

verus! {

/// The evaluator's whole state: its two token slots and what its tokenizer
/// still has to give.
pub struct Registers {
    /// The token under interpretation, or the running total that replaced it.
    pub current: Token,
    /// The token after `current`, read ahead but not yet interpreted.
    pub look_ahead: Token,
    /// The tokens that no slot has taken yet.
    pub input: Stream,
}

/// Where one grammar level leaves the evaluator.
pub struct Outcome {
    /// The state at the end of the level, or at the point where it failed.
    pub state: Registers,
    /// The failure, if the level met one.
    pub error: Option<EvalError>,
}

/// What a token counts for in the size of a state.
pub open spec fn weight(t: Token) -> nat {
    if t == Token::End {
        0
    } else {
        1
    }
}

impl Registers {
    /// The state before priming: both slots empty, nothing read.
    pub open spec fn fresh(input: Stream) -> Registers {
        Registers { current: Token::Empty, look_ahead: Token::Empty, input }
    }

    /// How much there is left to interpret. Every recursion of the grammar
    /// goes to a state of smaller size.
    pub open spec fn size(self) -> nat {
        weight(self.current) + weight(self.look_ahead) + self.input.tokens.len()
    }

    /// Whether the tokenizer answers the next request with a token.
    pub open spec fn can_shift(self) -> bool {
        self.input.head() is Ok
    }

    /// The state after a successful shift: the lookahead is promoted, a
    /// fresh token read ahead.
    pub open spec fn shifted(self) -> Registers {
        Registers {
            current: self.look_ahead,
            look_ahead: match self.input.head() {
                Ok(t) => t,
                Err(_) => Token::End,
            },
            input: self.input.tail(),
        }
    }

    /// This state with `t` in the current slot.
    pub open spec fn holding(self, t: Token) -> Registers {
        Registers { current: t, look_ahead: self.look_ahead, input: self.input }
    }

    /// The value in the current slot, where it holds a number.
    pub open spec fn total(self) -> Value {
        match self.current {
            Token::Number(v) => v,
            _ => Value::Literal(0),
        }
    }

    /// A level that ends here with success.
    pub open spec fn done(self) -> Outcome {
        Outcome { state: self, error: None }
    }

    /// A level that fails here with `e`.
    pub open spec fn failed(self, e: EvalError) -> Outcome {
        Outcome { state: self, error: Some(e) }
    }

    /// The failure of a shift for which the tokenizer has no token.
    pub open spec fn shift_error(self) -> EvalError {
        match self.input.head() {
            Err(e) => EvalError::Lex(e),
            Ok(_) => EvalError::ErrorOccurred,
        }
    }

    /// A level that fails here because the tokenizer has no token to shift
    /// in.
    pub open spec fn stuck(self) -> Outcome {
        self.failed(self.shift_error())
    }
}

impl Outcome {
    /// What the level reports to its caller.
    pub open spec fn verdict(self) -> Result<(), EvalError> {
        match self.error {
            Some(e) => Err(e),
            None => Ok(()),
        }
    }
}

/// Whether `t` is a sign: `+` or `-`.
pub open spec fn is_sign(t: Token) -> bool {
    t == Token::Operator('+') || t == Token::Operator('-')
}

/// Whether `t` is `*` or `/`.
pub open spec fn is_scaling(t: Token) -> bool {
    t == Token::Operator('*') || t == Token::Operator('/')
}

/// `a` combined with `b` by the binary operator `op`.
pub open spec fn combined(op: Token, a: Value, b: Value) -> Value {
    if op == Token::Operator('+') {
        Value::Sum(Box::new(a), Box::new(b))
    } else if op == Token::Operator('-') {
        Value::Difference(Box::new(a), Box::new(b))
    } else if op == Token::Operator('*') {
        Value::Product(Box::new(a), Box::new(b))
    } else {
        Value::Quotient(Box::new(a), Box::new(b))
    }
}

/// `v` under the sign `sign`.
pub open spec fn signed(sign: Token, v: Value) -> Value {
    if sign == Token::Operator('-') {
        Value::Negated(Box::new(v))
    } else {
        v
    }
}

/// The state in which a level that joins operands goes on: `second`, where
/// the right operand was read, with the two operands combined in the
/// current slot. The left operand and the operator are those of `first`,
/// the state before the two shifts that took them.
pub open spec fn joined(first: Registers, second: Registers) -> Registers {
    second.holding(Token::Number(combined(first.look_ahead, first.total(), second.total())))
}

/// The primary level: a number, or a group in parentheses.
///
/// A number in the current slot is the result, and no token is taken. After
/// `(` the additive level evaluates the group, `)` has to be in the
/// lookahead, and the shift that takes it leaves the group's value in the
/// current slot.
pub open spec fn primary(m: Registers) -> Outcome
    decreases m.size(), 0nat,
{
    if m.current == Token::Operator('(') {
        if !m.can_shift() {
            m.stuck()
        } else {
            let inner = additive(m.shifted());
            if inner.error is Some {
                inner
            } else if inner.state.look_ahead != Token::Operator(')') {
                inner.state.failed(EvalError::UnmatchedBracket)
            } else if !inner.state.can_shift() {
                inner.state.stuck()
            } else {
                inner.state.shifted().holding(inner.state.current).done()
            }
        }
    } else if m.current is Number {
        m.done()
    } else {
        m.failed(EvalError::InvalidOperator)
    }
}

/// The unary level: an optional sign before a primary expression.
pub open spec fn unary(m: Registers) -> Outcome
    decreases m.size(), 1nat,
{
    if is_sign(m.current) {
        if !m.can_shift() {
            m.stuck()
        } else {
            let operand = primary(m.shifted());
            if operand.error is Some {
                operand
            } else {
                operand.state.holding(
                    Token::Number(signed(m.current, operand.state.total())),
                ).done()
            }
        }
    } else {
        primary(m)
    }
}

/// The multiplicative level: unary expressions joined by `*` and `/`,
/// combined from left to right.
///
/// Once the first operand is in the current slot, each round takes the
/// operator and the next operand and puts the combination back into the
/// current slot, from where the level goes on.
///
/// The two comparisons of sizes make the recursion well founded. Neither
/// ever fails: see `lemma_multiplicative_unfolds`.
pub open spec fn multiplicative(m: Registers) -> Outcome
    decreases m.size(), 2nat,
{
    let first = unary(m);
    if first.error is Some || !is_scaling(first.state.look_ahead) {
        first
    } else if !first.state.can_shift() {
        first.state.stuck()
    } else if !first.state.shifted().can_shift() {
        first.state.shifted().stuck()
    } else if first.state.size() > m.size() {
        first
    } else {
        let second = unary(first.state.shifted().shifted());
        if second.error is Some {
            second
        } else {
            let next = joined(first.state, second.state);
            if next.size() < m.size() {
                multiplicative(next)
            } else {
                next.done()
            }
        }
    }
}

/// The additive level: multiplicative expressions joined by `+` and `-`,
/// combined from left to right, in the way of the multiplicative level.
///
/// Here too the two comparisons of sizes make the recursion well founded
/// and never fail: see `lemma_additive_unfolds`.
pub open spec fn additive(m: Registers) -> Outcome
    decreases m.size(), 3nat,
{
    let first = multiplicative(m);
    if first.error is Some || !is_sign(first.state.look_ahead) {
        first
    } else if !first.state.can_shift() {
        first.state.stuck()
    } else if !first.state.shifted().can_shift() {
        first.state.shifted().stuck()
    } else if first.state.size() > m.size() {
        first
    } else {
        let second = multiplicative(first.state.shifted().shifted());
        if second.error is Some {
            second
        } else {
            let next = joined(first.state, second.state);
            if next.size() < m.size() {
                additive(next)
            } else {
                next.done()
            }
        }
    }
}

/// Where evaluating a line leaves the evaluator, and what it returns.
pub struct Session {
    /// The evaluator's state at the end.
    pub state: Registers,
    /// The line's value, or the failure.
    pub result: Result<Value, EvalError>,
}

/// One evaluation, from the state `m` on.
///
/// Two shifts prime the slots with the first two tokens, and the additive
/// level evaluates. The first failure ends the evaluation and is the
/// result, unchanged: that of the tokenizer in a shift, or that of a
/// grammar level. Where the additive level succeeds, `End` has to be in
/// the lookahead: then the result is the value that the level left in the
/// current slot, which is taken out. With any other token there, the line
/// is an invalid expression.
pub open spec fn session(m: Registers) -> Session {
    if !m.can_shift() {
        Session { state: m, result: Err(m.shift_error()) }
    } else if !m.shifted().can_shift() {
        Session { state: m.shifted(), result: Err(m.shifted().shift_error()) }
    } else {
        let end = additive(m.shifted().shifted());
        match end.error {
            Some(e) => Session { state: end.state, result: Err(e) },
            None => if end.state.look_ahead == Token::End {
                Session { state: end.state.holding(Token::Empty), result: Ok(end.state.total()) }
            } else {
                Session { state: end.state, result: Err(EvalError::InvalidExpression) }
            },
        }
    }
}

/// What evaluating the tokens of `input` gives.
pub open spec fn evaluation(input: Stream) -> Result<Value, EvalError> {
    session(Registers::fresh(input)).result
}

/// An evaluation has no memory: what the two slots hold when it starts has
/// no part in its result, which the tokens to come decide alone.
pub proof fn lemma_session_has_no_memory(m: Registers)
    ensures
        session(m).result == evaluation(m.input),
{
}

/// The first failure is the result: where priming succeeds and the
/// additive level fails, the evaluation returns that failure unchanged,
/// whatever tokens are left over.
pub proof fn lemma_first_failure_is_the_result(m: Registers, e: EvalError)
    requires
        m.can_shift(),
        m.shifted().can_shift(),
        additive(m.shifted().shifted()).error == Some(e),
    ensures
        session(m).result == Err::<Value, EvalError>(e),
        session(m).state == additive(m.shifted().shifted()).state,
{
}

/// Leftover tokens are an invalid expression only behind a complete
/// expression: the evaluation reports them only where the additive level
/// has succeeded and left something else than `End` in the lookahead.
pub proof fn lemma_leftover_follows_success(m: Registers)
    requires
        session(m).result == Err::<Value, EvalError>(EvalError::InvalidExpression),
    ensures
        m.can_shift(),
        m.shifted().can_shift(),
        additive(m.shifted().shifted()).error is None,
        additive(m.shifted().shifted()).state.look_ahead != Token::End,
{
    if m.can_shift() && m.shifted().can_shift() {
        lemma_levels(m.shifted().shifted());
    }
}

/// An evaluation never fails for want of a number.
pub proof fn lemma_session_finds_its_numbers(m: Registers)
    ensures
        session(m).result != Err::<Value, EvalError>(EvalError::ErrorOccurred),
{
    if m.can_shift() && m.shifted().can_shift() {
        lemma_levels(m.shifted().shifted());
    }
}

/// What holds of the outcome `o` of any grammar level that started in `m`.
pub open spec fn settled(m: Registers, o: Outcome) -> bool {
    &&& o.error is None ==> o.state.current is Number && o.state.size() <= m.size()
    &&& o.error != Some(EvalError::ErrorOccurred)
    &&& o.error != Some(EvalError::InvalidExpression)
}

/// A shift takes the current token's weight off the state's size.
pub proof fn lemma_shift_size(m: Registers)
    requires
        m.can_shift(),
    ensures
        m.shifted().size() + weight(m.current) <= m.size(),
{
}

/// A grammar level that succeeds leaves a number in the current slot and a
/// state that is no larger than the one it found, and no level fails for
/// want of a number or for leftover tokens. A level that joins operands
/// goes on as long as it finds one of its operators: where the
/// multiplicative level succeeds, the lookahead is neither `*` nor `/`, and
/// where the additive level succeeds, it is none of `+ - * /`.
pub proof fn lemma_levels(m: Registers)
    ensures
        settled(m, primary(m)),
        settled(m, unary(m)),
        settled(m, multiplicative(m)),
        settled(m, additive(m)),
        multiplicative(m).error is None ==> !is_scaling(multiplicative(m).state.look_ahead),
        additive(m).error is None ==> !is_scaling(additive(m).state.look_ahead) && !is_sign(
            additive(m).state.look_ahead,
        ),
{
    lemma_primary(m);
    lemma_unary(m);
    lemma_multiplicative(m);
    lemma_additive(m);
}

proof fn lemma_primary(m: Registers)
    ensures
        settled(m, primary(m)),
    decreases m.size(), 0nat,
{
    if m.current == Token::Operator('(') && m.can_shift() {
        lemma_shift_size(m);
        lemma_additive(m.shifted());
        let inner = additive(m.shifted());
        if inner.error is None && inner.state.can_shift() {
            lemma_shift_size(inner.state);
        }
    }
}

proof fn lemma_unary(m: Registers)
    ensures
        settled(m, unary(m)),
    decreases m.size(), 1nat,
{
    if is_sign(m.current) {
        if m.can_shift() {
            lemma_shift_size(m);
            lemma_primary(m.shifted());
        }
    } else {
        lemma_primary(m);
    }
}

proof fn lemma_multiplicative(m: Registers)
    ensures
        settled(m, multiplicative(m)),
        multiplicative(m).error is None ==> !is_scaling(multiplicative(m).state.look_ahead),
    decreases m.size(), 2nat,
{
    lemma_unary(m);
    let first = unary(m);
    if first.error is None && is_scaling(first.state.look_ahead) && first.state.can_shift()
        && first.state.shifted().can_shift() {
        let ahead = first.state.shifted().shifted();
        lemma_shift_size(first.state);
        lemma_shift_size(first.state.shifted());
        lemma_unary(ahead);
        let second = unary(ahead);
        if second.error is None {
            lemma_multiplicative(joined(first.state, second.state));
        }
    }
}

proof fn lemma_additive(m: Registers)
    ensures
        settled(m, additive(m)),
        additive(m).error is None ==> !is_scaling(additive(m).state.look_ahead) && !is_sign(
            additive(m).state.look_ahead,
        ),
    decreases m.size(), 3nat,
{
    lemma_multiplicative(m);
    let first = multiplicative(m);
    if first.error is None && is_sign(first.state.look_ahead) && first.state.can_shift()
        && first.state.shifted().can_shift() {
        let ahead = first.state.shifted().shifted();
        lemma_shift_size(first.state);
        lemma_shift_size(first.state.shifted());
        lemma_multiplicative(ahead);
        let second = multiplicative(ahead);
        if second.error is None {
            lemma_additive(joined(first.state, second.state));
        }
    }
}

/// The multiplicative level without the comparisons of sizes: after the
/// first operand it ends unless `*` or `/` follows, and else goes on from
/// the two operands combined.
pub proof fn lemma_multiplicative_unfolds(m: Registers)
    ensures
        multiplicative(m) == ({
            let first = unary(m);
            if first.error is Some || !is_scaling(first.state.look_ahead) {
                first
            } else if !first.state.can_shift() {
                first.state.stuck()
            } else if !first.state.shifted().can_shift() {
                first.state.shifted().stuck()
            } else {
                let second = unary(first.state.shifted().shifted());
                if second.error is Some {
                    second
                } else {
                    multiplicative(joined(first.state, second.state))
                }
            }
        }),
{
    let first = unary(m);
    lemma_levels(m);
    if first.error is None && first.state.can_shift() && first.state.shifted().can_shift() {
        lemma_shift_size(first.state);
        lemma_shift_size(first.state.shifted());
        lemma_levels(first.state.shifted().shifted());
    }
}

/// The additive level without the comparisons of sizes: after the first
/// operand it ends unless `+` or `-` follows, and else goes on from the
/// two operands combined.
pub proof fn lemma_additive_unfolds(m: Registers)
    ensures
        additive(m) == ({
            let first = multiplicative(m);
            if first.error is Some || !is_sign(first.state.look_ahead) {
                first
            } else if !first.state.can_shift() {
                first.state.stuck()
            } else if !first.state.shifted().can_shift() {
                first.state.shifted().stuck()
            } else {
                let second = multiplicative(first.state.shifted().shifted());
                if second.error is Some {
                    second
                } else {
                    additive(joined(first.state, second.state))
                }
            }
        }),
{
    let first = multiplicative(m);
    lemma_levels(m);
    if first.error is None && first.state.can_shift() && first.state.shifted().can_shift() {
        lemma_shift_size(first.state);
        lemma_shift_size(first.state.shifted());
        lemma_levels(first.state.shifted().shifted());
    }
}

/// Division is no failure, whatever the divisor, zero included: from a
/// number in the current slot, `/` in the lookahead and one number as all
/// that is to come, the multiplicative level ends with the quotient of the
/// two in the current slot. What a quotient is worth is settled where its
/// arithmetic is carried out.
pub proof fn lemma_division_never_fails(m: Registers, divisor: Value)
    requires
        m.current is Number,
        m.look_ahead == Token::Operator('/'),
        m.input == (Stream { tokens: seq![Token::Number(divisor)], fault: None }),
    ensures
        multiplicative(m).error is None,
        multiplicative(m).state.current == Token::Number(
            Value::Quotient(Box::new(m.total()), Box::new(divisor)),
        ),
        multiplicative(m).state.look_ahead == Token::End,
        multiplicative(m).state.input.tokens.len() == 0,
{
    let ahead = m.shifted().shifted();
    lemma_multiplicative_unfolds(m);
    lemma_number_stays(m);
    assert(m.input.tokens[0] == Token::Number(divisor));
    assert(m.input.tail().tokens.len() == 0);
    assert(ahead.current == Token::Number(divisor));
    assert(ahead.look_ahead == Token::End);
    lemma_number_stays(ahead);
    lemma_number_stays(joined(m, ahead));
}

/// A number in the current slot is a complete primary and unary
/// expression, and a complete expression of the levels above where the
/// lookahead is none of their operators.
pub proof fn lemma_number_stays(m: Registers)
    requires
        m.current is Number,
    ensures
        primary(m) == m.done(),
        unary(m) == m.done(),
        !is_scaling(m.look_ahead) ==> multiplicative(m) == m.done(),
        !is_scaling(m.look_ahead) && !is_sign(m.look_ahead) ==> additive(m) == m.done(),
{
}

/// The multiplicative level goes on from its first operand as if it had
/// found that operand's value in the current slot.
pub proof fn lemma_multiplicative_resumes(m: Registers)
    requires
        unary(m).error is None,
    ensures
        multiplicative(m) == multiplicative(unary(m).state),
{
    let first = unary(m).state;
    lemma_levels(m);
    lemma_number_stays(first);
    if first.can_shift() && first.shifted().can_shift() {
        lemma_shift_size(first);
        lemma_shift_size(first.shifted());
        lemma_levels(first.shifted().shifted());
    }
}

/// The additive level goes on from its first operand as if it had found
/// that operand's value in the current slot.
pub proof fn lemma_additive_resumes(m: Registers)
    requires
        multiplicative(m).error is None,
    ensures
        additive(m) == additive(multiplicative(m).state),
{
    let first = multiplicative(m).state;
    lemma_levels(m);
    lemma_number_stays(first);
    if first.can_shift() && first.shifted().can_shift() {
        lemma_shift_size(first);
        lemma_shift_size(first.shifted());
        lemma_levels(first.shifted().shifted());
    }
}

} // verus!
