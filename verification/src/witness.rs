use vstd::prelude::*;
use crate::error::EvalError;
use crate::lexer::{lemma_scan_shortens, scan, token_stream};
use crate::machine::{
    additive, evaluation, is_scaling, is_sign, joined, lemma_additive_resumes,
    lemma_additive_unfolds, lemma_levels, lemma_multiplicative_resumes,
    lemma_multiplicative_unfolds, lemma_number_stays, lemma_shift_size, multiplicative, primary,
    unary, Registers,
};
use crate::scan::Stream;
use crate::syntax::{
    having_read, lemma_joins, lemma_primed, lemma_reads, lemma_shift_reads_on,
    lemma_tokens_nonempty, reading, spelled_at, token_at, Syntax,
};
use crate::token::Token;
use crate::value::Value;

verus! {

/// Whether `t` is a token as it comes from a line of text: an operator, or
/// a number that is a literal.
pub open spec fn is_plain(t: Token) -> bool {
    t is Operator || (t matches Token::Number(v) && v is Literal)
}

/// Whether every token of `line` is plain.
pub open spec fn plain(line: Seq<Token>) -> bool {
    forall|i: int| 0 <= i < line.len() ==> is_plain(#[trigger] line[i])
}

/// The character of an operator token.
pub open spec fn symbol(t: Token) -> char {
    match t {
        Token::Operator(c) => c,
        _ => ' ',
    }
}

/// A group is spelled where `(`, its content and `)` stand in a row.
proof fn lemma_spells_group(e: Syntax, line: Seq<Token>, i: int)
    requires
        0 <= i,
        spelled_at(e, line, i + 1),
        i + 1 + e.tokens().len() < line.len(),
        line[i] == Token::Operator('('),
        line[i + 1 + e.tokens().len()] == Token::Operator(')'),
    ensures
        spelled_at(Syntax::Group(Box::new(e)), line, i),
{
    let t = Syntax::Group(Box::new(e));
    let n = e.tokens().len() as int;
    assert forall|j: int| 0 <= j < n + 2 implies line.subrange(i, i + n + 2)[j]
        == t.tokens()[j] by {
        if 1 <= j <= n {
            assert(line.subrange(i + 1, i + 1 + n)[j - 1] == line[i + j]);
        }
    }
    assert(line.subrange(i, i + n + 2) =~= t.tokens());
}

/// A signed operand is spelled where the sign and the operand stand in a
/// row.
proof fn lemma_spells_signed(s: char, e: Syntax, line: Seq<Token>, i: int)
    requires
        0 <= i < line.len(),
        line[i] == Token::Operator(s),
        spelled_at(e, line, i + 1),
    ensures
        spelled_at(Syntax::Signed(s, Box::new(e)), line, i),
{
    let t = Syntax::Signed(s, Box::new(e));
    let n = e.tokens().len() as int;
    assert forall|j: int| 0 <= j < n + 1 implies line.subrange(i, i + n + 1)[j]
        == t.tokens()[j] by {
        if 1 <= j {
            assert(line.subrange(i + 1, i + 1 + n)[j - 1] == line[i + j]);
        }
    }
    assert(line.subrange(i, i + n + 1) =~= t.tokens());
}

/// A binary operation is spelled where the left operand, the operator and
/// the right operand stand in a row.
proof fn lemma_spells_binary(l: Syntax, op: char, r: Syntax, line: Seq<Token>, i: int)
    requires
        spelled_at(l, line, i),
        i + l.tokens().len() < line.len(),
        line[i + l.tokens().len()] == Token::Operator(op),
        spelled_at(r, line, i + l.tokens().len() + 1),
    ensures
        spelled_at(Syntax::Binary(Box::new(l), op, Box::new(r)), line, i),
{
    let t = Syntax::Binary(Box::new(l), op, Box::new(r));
    let a = l.tokens().len() as int;
    let b = r.tokens().len() as int;
    assert forall|j: int| 0 <= j < a + 1 + b implies line.subrange(i, i + a + 1 + b)[j]
        == t.tokens()[j] by {
        if j < a {
            assert(line.subrange(i, i + a)[j] == line[i + j]);
        } else if j > a {
            assert(line.subrange(i + a + 1, i + a + 1 + b)[j - a - 1] == line[i + j]);
        }
    }
    assert(line.subrange(i, i + a + 1 + b) =~= t.tokens());
}

/// Where the primary level succeeds, it has read a number or a group.
proof fn lemma_primary_back(line: Seq<Token>, i: int) -> (t: Syntax)
    requires
        plain(line),
        0 <= i <= line.len(),
        primary(reading(line, i)).error is None,
    ensures
        t.well_formed(),
        t.rank() == 0,
        spelled_at(t, line, i),
        primary(reading(line, i)) == having_read(t, line, i).done(),
    decreases line.len() - i, 1nat,
{
    let m = reading(line, i);
    if m.current == Token::Operator('(') {
        lemma_shift_reads_on(line, i, m.current);
        assert(m.holding(m.current) == m);
        let e = lemma_additive_back(line, i + 1);
        lemma_tokens_nonempty(e);
        lemma_spells_group(e, line, i);
        let t = Syntax::Group(Box::new(e));
        lemma_reads(t, line, i, 0);
        t
    } else {
        assert(is_plain(line[i]));
        let n = match m.current {
            Token::Number(Value::Literal(n)) => n,
            _ => 0,
        };
        let t = Syntax::Number(n);
        assert(line.subrange(i, i + 1) =~= t.tokens());
        lemma_reads(t, line, i, 0);
        t
    }
}

/// Where the unary level succeeds, it has read a number or a group, with
/// or without a sign before it.
proof fn lemma_unary_back(line: Seq<Token>, i: int) -> (t: Syntax)
    requires
        plain(line),
        0 <= i <= line.len(),
        unary(reading(line, i)).error is None,
    ensures
        t.well_formed(),
        t.rank() <= 1,
        spelled_at(t, line, i),
        unary(reading(line, i)) == having_read(t, line, i).done(),
    decreases line.len() - i, 2nat,
{
    let m = reading(line, i);
    if is_sign(m.current) {
        lemma_shift_reads_on(line, i, m.current);
        assert(m.holding(m.current) == m);
        let e = lemma_primary_back(line, i + 1);
        let t = Syntax::Signed(symbol(m.current), Box::new(e));
        lemma_spells_signed(symbol(m.current), e, line, i);
        lemma_reads(t, line, i, 1);
        t
    } else {
        lemma_primary_back(line, i)
    }
}

/// Where the multiplicative level succeeds from the value of a tree that
/// it has read, it has read a tree that begins with that one.
proof fn lemma_scaled_back(acc: Syntax, line: Seq<Token>, i: int) -> (t: Syntax)
    requires
        plain(line),
        acc.well_formed(),
        acc.rank() <= 2,
        spelled_at(acc, line, i),
        multiplicative(having_read(acc, line, i)).error is None,
    ensures
        t.well_formed(),
        t.rank() <= 2,
        spelled_at(t, line, i),
        multiplicative(having_read(acc, line, i)) == having_read(t, line, i).done(),
    decreases line.len() - (i + acc.tokens().len()), 0nat,
{
    let m = having_read(acc, line, i);
    let a = acc.tokens().len() as int;
    lemma_tokens_nonempty(acc);
    lemma_number_stays(m);
    lemma_multiplicative_unfolds(m);
    if !is_scaling(m.look_ahead) {
        acc
    } else {
        let op = symbol(line[i + a]);
        lemma_shift_reads_on(line, i + a - 1, m.current);
        lemma_shift_reads_on(line, i + a, line[i + a]);
        assert(reading(line, i + a).holding(line[i + a]) == reading(line, i + a));
        let r = lemma_unary_back(line, i + a + 1);
        let next = Syntax::Binary(Box::new(acc), op, Box::new(r));
        lemma_tokens_nonempty(r);
        lemma_spells_binary(acc, op, r, line, i);
        lemma_joins(acc, op, r, line, i);
        lemma_scaled_back(next, line, i)
    }
}

/// Where the multiplicative level succeeds, it has read unary expressions
/// joined by `*` and `/` from left to right.
proof fn lemma_multiplicative_back(line: Seq<Token>, i: int) -> (t: Syntax)
    requires
        plain(line),
        0 <= i <= line.len(),
        multiplicative(reading(line, i)).error is None,
    ensures
        t.well_formed(),
        t.rank() <= 2,
        spelled_at(t, line, i),
        multiplicative(reading(line, i)) == having_read(t, line, i).done(),
    decreases line.len() - i, 3nat,
{
    let m = reading(line, i);
    lemma_multiplicative_unfolds(m);
    let first = lemma_unary_back(line, i);
    lemma_tokens_nonempty(first);
    lemma_multiplicative_resumes(m);
    lemma_scaled_back(first, line, i)
}

/// Where the additive level succeeds from the value of a tree that it has
/// read, it has read a tree that begins with that one.
proof fn lemma_added_back(acc: Syntax, line: Seq<Token>, i: int) -> (t: Syntax)
    requires
        plain(line),
        acc.well_formed(),
        spelled_at(acc, line, i),
        !is_scaling(token_at(line, i + acc.tokens().len())),
        additive(having_read(acc, line, i)).error is None,
    ensures
        t.well_formed(),
        spelled_at(t, line, i),
        additive(having_read(acc, line, i)) == having_read(t, line, i).done(),
    decreases line.len() - (i + acc.tokens().len()), 0nat,
{
    let m = having_read(acc, line, i);
    let a = acc.tokens().len() as int;
    lemma_tokens_nonempty(acc);
    lemma_number_stays(m);
    lemma_additive_unfolds(m);
    if !is_sign(m.look_ahead) {
        acc
    } else {
        let op = symbol(line[i + a]);
        lemma_shift_reads_on(line, i + a - 1, m.current);
        lemma_shift_reads_on(line, i + a, line[i + a]);
        assert(reading(line, i + a).holding(line[i + a]) == reading(line, i + a));
        let r = lemma_multiplicative_back(line, i + a + 1);
        lemma_levels(reading(line, i + a + 1));
        let next = Syntax::Binary(Box::new(acc), op, Box::new(r));
        lemma_tokens_nonempty(r);
        lemma_spells_binary(acc, op, r, line, i);
        lemma_joins(acc, op, r, line, i);
        lemma_added_back(next, line, i)
    }
}

/// Where the additive level succeeds, it has read multiplicative
/// expressions joined by `+` and `-` from left to right.
proof fn lemma_additive_back(line: Seq<Token>, i: int) -> (t: Syntax)
    requires
        plain(line),
        0 <= i <= line.len(),
        additive(reading(line, i)).error is None,
    ensures
        t.well_formed(),
        spelled_at(t, line, i),
        additive(reading(line, i)) == having_read(t, line, i).done(),
    decreases line.len() - i, 4nat,
{
    let m = reading(line, i);
    lemma_additive_unfolds(m);
    lemma_levels(m);
    let first = lemma_multiplicative_back(line, i);
    lemma_tokens_nonempty(first);
    lemma_additive_resumes(m);
    lemma_added_back(first, line, i)
}

/// A line of plain tokens that evaluates spells a well-formed tree, and
/// evaluates to what that tree means. With
/// `theorem_evaluation_reads_as_written` this says: the lines that
/// evaluate are the lines that spell a well-formed tree.
pub proof fn theorem_evaluation_reads_back(line: Seq<Token>) -> (t: Syntax)
    requires
        plain(line),
        evaluation(Stream { tokens: line, fault: None }) is Ok,
    ensures
        t.well_formed(),
        t.tokens() == line,
        evaluation(Stream { tokens: line, fault: None }) == Ok::<Value, EvalError>(t.meaning()),
{
    lemma_primed(line);
    let t = lemma_additive_back(line, 0);
    let n = t.tokens().len() as int;
    if n < line.len() {
        assert(is_plain(line[n]));
    }
    assert(line.subrange(0, line.len() as int) =~= line);
    t
}

/// The tokens of a text are plain: the tokenizer hands out `End` only once
/// the text is used up, and `Empty` never.
pub proof fn lemma_stream_is_plain(text: Seq<char>)
    ensures
        plain(token_stream(text).tokens),
    decreases text.len(),
{
    let first = scan(text);
    match first.token {
        Err(_) => {},
        Ok(Token::End) => {},
        Ok(t) => {
            lemma_scan_shortens(text);
            lemma_stream_is_plain(first.rest);
            let later = token_stream(first.rest);
            assert forall|i: int| 0 <= i < token_stream(text).tokens.len() implies is_plain(
                #[trigger] token_stream(text).tokens[i],
            ) by {
                if i > 0 {
                    assert(token_stream(text).tokens[i] == later.tokens[i - 1]);
                }
            }
        },
    }
}

/// Whether `m` can never have `End` in its lookahead: it has none there
/// now, and its tokenizer has plain tokens and then a failure to give.
pub open spec fn never_ends(m: Registers) -> bool {
    &&& m.look_ahead != Token::End
    &&& m.input.fault is Some
    &&& plain(m.input.tokens)
}

/// A shift keeps `End` out of the lookahead where the tokenizer will fail.
proof fn lemma_shift_never_ends(m: Registers)
    requires
        never_ends(m),
        m.can_shift(),
    ensures
        never_ends(m.shifted()),
        forall|t: Token| never_ends(#[trigger] m.shifted().holding(t)),
{
    assert(is_plain(m.input.tokens[0]));
    assert forall|i: int| 0 <= i < m.input.tail().tokens.len() implies is_plain(
        #[trigger] m.input.tail().tokens[i],
    ) by {
        assert(m.input.tail().tokens[i] == m.input.tokens[i + 1]);
    }
}

proof fn lemma_primary_never_ends(m: Registers)
    requires
        never_ends(m),
    ensures
        primary(m).error is None ==> never_ends(primary(m).state),
    decreases m.size(), 0nat,
{
    if m.current == Token::Operator('(') && m.can_shift() {
        lemma_shift_size(m);
        lemma_shift_never_ends(m);
        lemma_additive_never_ends(m.shifted());
        let inner = additive(m.shifted());
        if inner.error is None && inner.state.can_shift() {
            lemma_shift_never_ends(inner.state);
        }
    }
}

proof fn lemma_unary_never_ends(m: Registers)
    requires
        never_ends(m),
    ensures
        unary(m).error is None ==> never_ends(unary(m).state),
    decreases m.size(), 1nat,
{
    if is_sign(m.current) {
        if m.can_shift() {
            lemma_shift_size(m);
            lemma_shift_never_ends(m);
            lemma_primary_never_ends(m.shifted());
        }
    } else {
        lemma_primary_never_ends(m);
    }
}

proof fn lemma_multiplicative_never_ends(m: Registers)
    requires
        never_ends(m),
    ensures
        multiplicative(m).error is None ==> never_ends(multiplicative(m).state),
    decreases m.size(), 2nat,
{
    lemma_unary_never_ends(m);
    lemma_levels(m);
    let first = unary(m);
    if first.error is None && is_scaling(first.state.look_ahead) && first.state.can_shift()
        && first.state.shifted().can_shift() {
        let ahead = first.state.shifted().shifted();
        lemma_shift_size(first.state);
        lemma_shift_size(first.state.shifted());
        lemma_shift_never_ends(first.state);
        lemma_shift_never_ends(first.state.shifted());
        lemma_unary_never_ends(ahead);
        lemma_levels(ahead);
        let second = unary(ahead);
        if second.error is None {
            lemma_multiplicative_never_ends(joined(first.state, second.state));
        }
    }
}

proof fn lemma_additive_never_ends(m: Registers)
    requires
        never_ends(m),
    ensures
        additive(m).error is None ==> never_ends(additive(m).state),
    decreases m.size(), 3nat,
{
    lemma_multiplicative_never_ends(m);
    lemma_levels(m);
    let first = multiplicative(m);
    if first.error is None && is_sign(first.state.look_ahead) && first.state.can_shift()
        && first.state.shifted().can_shift() {
        let ahead = first.state.shifted().shifted();
        lemma_shift_size(first.state);
        lemma_shift_size(first.state.shifted());
        lemma_shift_never_ends(first.state);
        lemma_shift_never_ends(first.state.shifted());
        lemma_multiplicative_never_ends(ahead);
        lemma_levels(ahead);
        let second = multiplicative(ahead);
        if second.error is None {
            lemma_additive_never_ends(joined(first.state, second.state));
        }
    }
}

/// No line evaluates whose tokenizer fails, however late the failure
/// comes: an evaluation succeeds only with `End` in the lookahead.
pub proof fn theorem_no_value_after_a_failure(input: Stream)
    requires
        plain(input.tokens),
        input.fault is Some,
    ensures
        evaluation(input) is Err,
{
    let start = Registers::fresh(input);
    if start.can_shift() && start.shifted().can_shift() {
        assert(is_plain(input.tokens[0]));
        assert forall|i: int| 0 <= i < input.tail().tokens.len() implies is_plain(
            #[trigger] input.tail().tokens[i],
        ) by {
            assert(input.tail().tokens[i] == input.tokens[i + 1]);
        }
        assert(never_ends(start.shifted()));
        lemma_shift_never_ends(start.shifted());
        lemma_additive_never_ends(start.shifted().shifted());
    }
}

/// A text that evaluates is cut into the tokens of a well-formed tree, and
/// evaluates to what that tree means.
pub proof fn theorem_line_reads_back(text: Seq<char>) -> (t: Syntax)
    requires
        evaluation(token_stream(text)) is Ok,
    ensures
        t.well_formed(),
        token_stream(text) == (Stream { tokens: t.tokens(), fault: None }),
        evaluation(token_stream(text)) == Ok::<Value, EvalError>(t.meaning()),
{
    let input = token_stream(text);
    lemma_stream_is_plain(text);
    if input.fault is Some {
        theorem_no_value_after_a_failure(input);
    }
    theorem_evaluation_reads_back(input.tokens)
}

/// A well-formed tree is spelled without `%`.
pub proof fn lemma_no_remainder_in_a_tree(t: Syntax, j: int)
    requires
        t.well_formed(),
        0 <= j < t.tokens().len(),
    ensures
        t.tokens()[j] != Token::Operator('%'),
    decreases t,
{
    match t {
        Syntax::Number(_) => {},
        Syntax::Group(e) => {
            if 1 <= j <= e.tokens().len() {
                lemma_no_remainder_in_a_tree(*e, j - 1);
            }
        },
        Syntax::Signed(_, e) => {
            if 1 <= j {
                lemma_no_remainder_in_a_tree(*e, j - 1);
            }
        },
        Syntax::Binary(l, _, r) => {
            if j < l.tokens().len() {
                lemma_no_remainder_in_a_tree(*l, j);
            } else if j > l.tokens().len() {
                lemma_no_remainder_in_a_tree(*r, j - l.tokens().len() - 1);
            }
        },
    }
}

/// No text evaluates that has `%` among its tokens.
pub proof fn theorem_remainder_never_evaluates(text: Seq<char>, j: int)
    requires
        0 <= j < token_stream(text).tokens.len(),
        token_stream(text).tokens[j] == Token::Operator('%'),
    ensures
        evaluation(token_stream(text)) is Err,
{
    if evaluation(token_stream(text)) is Ok {
        let t = theorem_line_reads_back(text);
        lemma_no_remainder_in_a_tree(t, j);
    }
}

} // verus!
