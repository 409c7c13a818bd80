use vstd::prelude::*;

verus! {

/// The result of reading an expression: the arithmetic that it asks for.
///
/// Reading an expression settles which operation applies to which operands,
/// and in which order. It never needs to know what a number is worth, so the
/// result is kept as the operations themselves. A caller carries them out,
/// innermost first, in the numeric type it prefers: the left operand of each
/// binary operation is the first field, the right operand the second.
#[derive(Debug, PartialEq, Eq)]
pub enum Value {
    /// A number written out in the input as a run of decimal digits.
    Literal(u64),
    /// The operand with its sign reversed.
    Negated(Box<Value>),
    /// The first operand plus the second.
    Sum(Box<Value>, Box<Value>),
    /// The first operand minus the second.
    Difference(Box<Value>, Box<Value>),
    /// The first operand times the second.
    Product(Box<Value>, Box<Value>),
    /// The first operand divided by the second.
    Quotient(Box<Value>, Box<Value>),
}

} // verus!
