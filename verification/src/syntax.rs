use vstd::prelude::*;
use crate::error::EvalError;
use crate::machine::{
    additive, combined, evaluation, is_scaling, is_sign, joined, lemma_additive_resumes,
    lemma_multiplicative_resumes, lemma_number_stays, multiplicative, primary, signed, unary,
    weight, Registers,
};
use crate::scan::Stream;
use crate::token::Token;
use crate::value::Value;

verus! {

/// An expression as it is written: the tree that the usual reading of
/// arithmetic notation gives to a line.
pub enum Syntax {
    /// A number.
    Number(u64),
    /// An expression in parentheses.
    Group(Box<Syntax>),
    /// A sign, `+` or `-`, before its operand.
    Signed(char, Box<Syntax>),
    /// A left operand, one of `+ - * /`, and a right operand.
    Binary(Box<Syntax>, char, Box<Syntax>),
}

impl Syntax {
    /// How loosely the outermost construct binds: 0 for a number or a
    /// group, 1 for a signed operand, 2 for a product or quotient, 3 for a
    /// sum or difference.
    pub open spec fn rank(self) -> nat {
        match self {
            Syntax::Number(_) => 0,
            Syntax::Group(_) => 0,
            Syntax::Signed(_, _) => 1,
            Syntax::Binary(_, op, _) => if op == '*' || op == '/' {
                2
            } else {
                3
            },
        }
    }

    /// Whether this tree is the usual reading of what it spells.
    ///
    /// A sign stands before a number or a group. The left operand of a
    /// binary operator binds no more loosely than the operator, and the
    /// right operand binds more tightly: `*` and `/` come before `+` and
    /// `-`, and operators of one rank group from left to right.
    pub open spec fn well_formed(self) -> bool
        decreases self,
    {
        match self {
            Syntax::Number(_) => true,
            Syntax::Group(e) => e.well_formed(),
            Syntax::Signed(s, e) => (s == '+' || s == '-') && e.rank() == 0 && e.well_formed(),
            Syntax::Binary(l, op, r) => {
                &&& op == '+' || op == '-' || op == '*' || op == '/'
                &&& l.well_formed()
                &&& r.well_formed()
                &&& l.rank() <= self.rank()
                &&& r.rank() < self.rank()
            },
        }
    }

    /// The tokens that spell this tree.
    pub open spec fn tokens(self) -> Seq<Token>
        decreases self,
    {
        match self {
            Syntax::Number(n) => seq![Token::Number(Value::Literal(n))],
            Syntax::Group(e) => seq![Token::Operator('(')] + e.tokens() + seq![
                Token::Operator(')'),
            ],
            Syntax::Signed(s, e) => seq![Token::Operator(s)] + e.tokens(),
            Syntax::Binary(l, op, r) => l.tokens() + seq![Token::Operator(op)] + r.tokens(),
        }
    }

    /// The arithmetic that this tree asks for: each operator applied to the
    /// meaning of its operands. Parentheses and `+` as a sign change
    /// nothing.
    pub open spec fn meaning(self) -> Value
        decreases self,
    {
        match self {
            Syntax::Number(n) => Value::Literal(n),
            Syntax::Group(e) => e.meaning(),
            Syntax::Signed(s, e) => signed(Token::Operator(s), e.meaning()),
            Syntax::Binary(l, op, r) => combined(Token::Operator(op), l.meaning(), r.meaning()),
        }
    }
}

/// The token at place `i` of a line that is never cut short: past the last
/// token comes `End`.
pub open spec fn token_at(line: Seq<Token>, i: int) -> Token {
    if 0 <= i < line.len() {
        line[i]
    } else {
        Token::End
    }
}

/// The evaluator's state with its current slot on place `i` of `line`.
pub open spec fn reading(line: Seq<Token>, i: int) -> Registers {
    Registers {
        current: token_at(line, i),
        look_ahead: token_at(line, i + 1),
        input: Stream {
            tokens: if 0 <= i + 2 <= line.len() {
                line.skip(i + 2)
            } else {
                Seq::empty()
            },
            fault: None,
        },
    }
}

/// A shift moves the evaluator one place on, whatever its current slot
/// holds.
pub proof fn lemma_shift_reads_on(line: Seq<Token>, i: int, t: Token)
    requires
        -2 <= i,
    ensures
        reading(line, i).holding(t).can_shift(),
        reading(line, i).holding(t).shifted() == reading(line, i + 1),
{
    let m = reading(line, i).holding(t);
    if i + 2 < line.len() {
        assert(line.skip(i + 2).skip(1) =~= line.skip(i + 3));
    } else if i + 2 == line.len() {
        assert(line.skip(i + 2) =~= Seq::<Token>::empty());
    }
    assert(m.shifted().input.tokens =~= reading(line, i + 1).input.tokens);
}

/// Priming takes the evaluator to the first token of the line.
pub proof fn lemma_primed(line: Seq<Token>)
    ensures
        ({
            let start = Registers::fresh(Stream { tokens: line, fault: None });
            &&& start.can_shift()
            &&& start.shifted().can_shift()
            &&& start.shifted().shifted() == reading(line, 0)
        }),
{
    let start = Registers::fresh(Stream { tokens: line, fault: None });
    assert(start.shifted().input.tokens =~= reading(line, -1).input.tokens);
    assert(start.shifted() == reading(line, -1).holding(Token::Empty));
    lemma_shift_reads_on(line, -1, Token::Empty);
}

/// A tree is spelled with at least one token.
pub proof fn lemma_tokens_nonempty(t: Syntax)
    ensures
        t.tokens().len() >= 1,
    decreases t,
{
    match t {
        Syntax::Number(_) => {},
        Syntax::Group(e) => {},
        Syntax::Signed(_, e) => {},
        Syntax::Binary(l, _, r) => {
            lemma_tokens_nonempty(*l);
        },
    }
}

/// Whether the tokens of `t` stand in `line` from place `i` on.
pub open spec fn spelled_at(t: Syntax, line: Seq<Token>, i: int) -> bool {
    &&& 0 <= i
    &&& i + t.tokens().len() <= line.len()
    &&& line.subrange(i, i + t.tokens().len()) == t.tokens()
}

/// The evaluator's state once it has read `t` from place `i` on: the
/// current slot is on the last token of `t` and holds what `t` means.
pub open spec fn having_read(t: Syntax, line: Seq<Token>, i: int) -> Registers {
    reading(line, i + t.tokens().len() - 1).holding(Token::Number(t.meaning()))
}

/// Where a tree is spelled, each token of it is in its place.
proof fn lemma_spelled_token(t: Syntax, line: Seq<Token>, i: int, j: int)
    requires
        spelled_at(t, line, i),
        0 <= j < t.tokens().len(),
    ensures
        line[i + j] == t.tokens()[j],
{
    assert(line.subrange(i, i + t.tokens().len())[j] == line[i + j]);
}

/// Where a group is spelled, so is what it holds, between `(` and `)`.
proof fn lemma_spelled_group(e: Syntax, line: Seq<Token>, i: int)
    requires
        spelled_at(Syntax::Group(Box::new(e)), line, i),
    ensures
        line[i] == Token::Operator('('),
        spelled_at(e, line, i + 1),
        line[i + 1 + e.tokens().len()] == Token::Operator(')'),
{
    let t = Syntax::Group(Box::new(e));
    let n = e.tokens().len() as int;
    lemma_spelled_token(t, line, i, 0);
    lemma_spelled_token(t, line, i, n + 1);
    assert forall|j: int| 0 <= j < n implies line.subrange(i + 1, i + 1 + n)[j]
        == e.tokens()[j] by {
        lemma_spelled_token(t, line, i, j + 1);
    }
    assert(line.subrange(i + 1, i + 1 + n) =~= e.tokens());
}

/// Where a signed operand is spelled, so is the operand, after the sign.
proof fn lemma_spelled_signed(s: char, e: Syntax, line: Seq<Token>, i: int)
    requires
        spelled_at(Syntax::Signed(s, Box::new(e)), line, i),
    ensures
        line[i] == Token::Operator(s),
        spelled_at(e, line, i + 1),
{
    let t = Syntax::Signed(s, Box::new(e));
    let n = e.tokens().len() as int;
    lemma_spelled_token(t, line, i, 0);
    assert forall|j: int| 0 <= j < n implies line.subrange(i + 1, i + 1 + n)[j]
        == e.tokens()[j] by {
        lemma_spelled_token(t, line, i, j + 1);
    }
    assert(line.subrange(i + 1, i + 1 + n) =~= e.tokens());
}

/// Where a binary operation is spelled, so are its operands, on either
/// side of the operator.
proof fn lemma_spelled_binary(l: Syntax, op: char, r: Syntax, line: Seq<Token>, i: int)
    requires
        spelled_at(Syntax::Binary(Box::new(l), op, Box::new(r)), line, i),
    ensures
        spelled_at(l, line, i),
        line[i + l.tokens().len()] == Token::Operator(op),
        spelled_at(r, line, i + l.tokens().len() + 1),
{
    let t = Syntax::Binary(Box::new(l), op, Box::new(r));
    let a = l.tokens().len() as int;
    let b = r.tokens().len() as int;
    lemma_spelled_token(t, line, i, a);
    assert forall|j: int| 0 <= j < a implies line.subrange(i, i + a)[j] == l.tokens()[j] by {
        lemma_spelled_token(t, line, i, j);
    }
    assert(line.subrange(i, i + a) =~= l.tokens());
    assert forall|j: int| 0 <= j < b implies line.subrange(i + a + 1, i + a + 1 + b)[j]
        == r.tokens()[j] by {
        lemma_spelled_token(t, line, i, a + 1 + j);
    }
    assert(line.subrange(i + a + 1, i + a + 1 + b) =~= r.tokens());
}

/// The first token of a tree of rank 0 is a number or `(`.
proof fn lemma_first_token(t: Syntax)
    requires
        t.rank() == 0,
    ensures
        t.tokens().len() >= 1,
        !is_sign(t.tokens()[0]),
        t.tokens()[0] is Number || t.tokens()[0] == Token::Operator('('),
{
}

/// The primary level reads a group whose content the additive level
/// reads.
proof fn lemma_reads_group(e: Syntax, line: Seq<Token>, i: int)
    requires
        spelled_at(Syntax::Group(Box::new(e)), line, i),
        additive(reading(line, i + 1)) == additive(having_read(e, line, i + 1)),
    ensures
        primary(reading(line, i)) == having_read(Syntax::Group(Box::new(e)), line, i).done(),
{
    let m = reading(line, i);
    let k = e.tokens().len() as int;
    lemma_tokens_nonempty(e);
    lemma_spelled_group(e, line, i);
    lemma_shift_reads_on(line, i, m.current);
    assert(m.holding(m.current) == m);
    let inner = having_read(e, line, i + 1);
    assert(inner.look_ahead == Token::Operator(')'));
    lemma_number_stays(inner);
    assert(additive(m.shifted()) == inner.done());
    lemma_shift_reads_on(line, i + k, inner.current);
    assert(inner.shifted() == reading(line, i + k + 1));
}

/// The unary level reads a signed operand whose operand the primary level
/// reads.
proof fn lemma_reads_signed(s: char, e: Syntax, line: Seq<Token>, i: int)
    requires
        s == '+' || s == '-',
        spelled_at(Syntax::Signed(s, Box::new(e)), line, i),
        primary(reading(line, i + 1)) == having_read(e, line, i + 1).done(),
    ensures
        unary(reading(line, i)) == having_read(Syntax::Signed(s, Box::new(e)), line, i).done(),
{
    let m = reading(line, i);
    lemma_tokens_nonempty(e);
    lemma_spelled_signed(s, e, line, i);
    lemma_shift_reads_on(line, i, m.current);
    assert(m.holding(m.current) == m);
}

/// A level that joins operands, having read the left operand of one of its
/// operators, takes the operator and the right operand and goes on with
/// the two combined.
pub proof fn lemma_joins(l: Syntax, op: char, r: Syntax, line: Seq<Token>, i: int)
    requires
        spelled_at(Syntax::Binary(Box::new(l), op, Box::new(r)), line, i),
    ensures
        ({
            let t = Syntax::Binary(Box::new(l), op, Box::new(r));
            let left = having_read(l, line, i);
            let right = having_read(r, line, i + l.tokens().len() + 1);
            &&& left.look_ahead == Token::Operator(op)
            &&& left.can_shift()
            &&& left.shifted().can_shift()
            &&& left.shifted().shifted() == reading(line, i + l.tokens().len() + 1)
            &&& joined(left, right) == having_read(t, line, i)
            &&& right.look_ahead == token_at(line, i + t.tokens().len())
            &&& right.size() < left.size()
        }),
{
    let a = l.tokens().len() as int;
    let b = r.tokens().len() as int;
    let left = having_read(l, line, i);
    lemma_spelled_binary(l, op, r, line, i);
    lemma_tokens_nonempty(l);
    lemma_tokens_nonempty(r);
    lemma_shift_reads_on(line, i + a - 1, left.current);
    lemma_shift_reads_on(line, i + a, Token::Operator(op));
    assert(reading(line, i + a).holding(Token::Operator(op)) == reading(line, i + a));
    assert(reading(line, i + a - 1).input.tokens.len() == line.len() - (i + a + 1));
    assert(reading(line, i + a + b).input.tokens.len() + weight(token_at(line, i + a + b + 1))
        <= line.len() - (i + a + b + 1));
}

/// The multiplicative level reads a product or quotient whose operands
/// the levels for them read.
proof fn lemma_reads_scaled(l: Syntax, op: char, r: Syntax, line: Seq<Token>, i: int)
    requires
        op == '*' || op == '/',
        spelled_at(Syntax::Binary(Box::new(l), op, Box::new(r)), line, i),
        multiplicative(reading(line, i)) == multiplicative(having_read(l, line, i)),
        unary(reading(line, i + l.tokens().len() + 1)) == having_read(
            r,
            line,
            i + l.tokens().len() + 1,
        ).done(),
    ensures
        multiplicative(reading(line, i)) == multiplicative(
            having_read(Syntax::Binary(Box::new(l), op, Box::new(r)), line, i),
        ),
{
    let left = having_read(l, line, i);
    lemma_joins(l, op, r, line, i);
    lemma_number_stays(left);
}

/// The additive level reads a sum or difference whose operands the levels
/// for them read.
proof fn lemma_reads_added(l: Syntax, op: char, r: Syntax, line: Seq<Token>, i: int)
    requires
        op == '+' || op == '-',
        spelled_at(Syntax::Binary(Box::new(l), op, Box::new(r)), line, i),
        !is_scaling(
            token_at(line, i + Syntax::Binary(Box::new(l), op, Box::new(r)).tokens().len()),
        ),
        additive(reading(line, i)) == additive(having_read(l, line, i)),
        multiplicative(reading(line, i + l.tokens().len() + 1)) == multiplicative(
            having_read(r, line, i + l.tokens().len() + 1),
        ),
    ensures
        additive(reading(line, i)) == additive(
            having_read(Syntax::Binary(Box::new(l), op, Box::new(r)), line, i),
        ),
{
    let left = having_read(l, line, i);
    let right = having_read(r, line, i + l.tokens().len() + 1);
    lemma_joins(l, op, r, line, i);
    lemma_number_stays(left);
    lemma_number_stays(right);
}

/// Each grammar level reads a well-formed tree of its rank, or of a rank
/// that binds more tightly, as what the tree means.
///
/// The primary and the unary level end there. The levels that join
/// operands go on from there, as if they had found the tree's value in the
/// current slot. For the additive level this holds where the token after
/// the tree is neither `*` nor `/`.
pub proof fn lemma_reads(t: Syntax, line: Seq<Token>, i: int, level: nat)
    requires
        t.well_formed(),
        t.rank() <= level <= 3,
        spelled_at(t, line, i),
        level == 3 ==> !is_scaling(token_at(line, i + t.tokens().len())),
    ensures
        level == 0 ==> primary(reading(line, i)) == having_read(t, line, i).done(),
        level == 1 ==> unary(reading(line, i)) == having_read(t, line, i).done(),
        level == 2 ==> multiplicative(reading(line, i)) == multiplicative(
            having_read(t, line, i),
        ),
        level == 3 ==> additive(reading(line, i)) == additive(having_read(t, line, i)),
    decreases t, level,
{
    let m = reading(line, i);
    lemma_tokens_nonempty(t);
    lemma_spelled_token(t, line, i, 0);
    if t.rank() < level {
        lemma_reads(t, line, i, (level - 1) as nat);
        if level == 1 {
            lemma_first_token(t);
        } else if level == 2 {
            lemma_multiplicative_resumes(m);
        } else {
            lemma_number_stays(having_read(t, line, i));
            lemma_additive_resumes(m);
        }
    } else {
        match t {
            Syntax::Number(_) => {
                assert(having_read(t, line, i) == m);
            },
            Syntax::Group(e) => {
                lemma_spelled_group(*e, line, i);
                lemma_reads(*e, line, i + 1, 3);
                lemma_reads_group(*e, line, i);
            },
            Syntax::Signed(s, e) => {
                lemma_spelled_signed(s, *e, line, i);
                lemma_reads(*e, line, i + 1, 0);
                lemma_reads_signed(s, *e, line, i);
            },
            Syntax::Binary(l, op, r) => {
                lemma_spelled_binary(*l, op, *r, line, i);
                lemma_reads(*l, line, i, level);
                lemma_reads(*r, line, i + l.tokens().len() + 1, (level - 1) as nat);
                if level == 2 {
                    lemma_reads_scaled(*l, op, *r, line, i);
                } else {
                    lemma_reads_added(*l, op, *r, line, i);
                }
            },
        }
    }
}

/// A line that spells a well-formed tree evaluates to what the tree
/// means: to the result of the usual reading of the line, in which `*` and
/// `/` come before `+` and `-`, operators of one rank group from left to
/// right, a sign applies to the number or group after it, and parentheses
/// group first.
pub proof fn theorem_evaluation_reads_as_written(t: Syntax)
    requires
        t.well_formed(),
    ensures
        evaluation(Stream { tokens: t.tokens(), fault: None }) == Ok::<Value, EvalError>(
            t.meaning(),
        ),
{
    let line = t.tokens();
    lemma_primed(line);
    assert(line.subrange(0, line.len() as int) =~= line);
    lemma_reads(t, line, 0, 3);
    lemma_number_stays(having_read(t, line, 0));
}

} // verus!
