use vstd::prelude::*;
use crate::error::{EvalError, LexError};
use crate::lexer::{decimal, digits, is_digit, is_space, scan, spaces, token_stream};
use crate::machine::evaluation;
use crate::scan::Stream;
use crate::syntax::{theorem_evaluation_reads_as_written, Syntax};
use crate::token::{is_operator, Token};
use crate::value::Value;

verus! {

/// Whether every character of `text` is white space.
pub open spec fn blank(text: Seq<char>) -> bool {
    forall|i: int| 0 <= i < text.len() ==> is_space(#[trigger] text[i])
}

/// Whether `word` is a number as it is written: a run of digits, one at
/// least, that stands for no more than `u64::MAX`.
pub open spec fn is_numeral(word: Seq<char>) -> bool {
    &&& word.len() >= 1
    &&& forall|i: int| 0 <= i < word.len() ==> is_digit(#[trigger] word[i])
    &&& decimal(word) <= u64::MAX
}

/// Whether `word` is what one token is written as: a numeral, or one
/// operator character.
pub open spec fn is_word(word: Seq<char>) -> bool {
    is_numeral(word) || (word.len() == 1 && is_operator(word[0]))
}

/// The token that `word` is written for.
pub open spec fn token_of(word: Seq<char>) -> Token {
    if is_numeral(word) {
        Token::Number(Value::Literal(decimal(word) as u64))
    } else {
        Token::Operator(word[0])
    }
}

/// One token on a line: the white space before it, and the token as it is
/// written.
pub struct Piece {
    /// The white space that separates the word from what is before it.
    pub gap: Seq<char>,
    /// The token's characters.
    pub word: Seq<char>,
}

/// Whether `pieces`, followed by `trailing`, lay out a line of tokens:
/// gaps are white space, words are words, and white space parts a numeral
/// from a numeral that follows it.
pub open spec fn laid_out(pieces: Seq<Piece>, trailing: Seq<char>) -> bool {
    &&& blank(trailing)
    &&& forall|i: int| 0 <= i < pieces.len() ==> blank(#[trigger] pieces[i].gap)
    &&& forall|i: int| 0 <= i < pieces.len() ==> is_word(#[trigger] pieces[i].word)
    &&& forall|i: int|
        0 <= i < pieces.len() - 1 && is_numeral(#[trigger] pieces[i].word) && is_numeral(
            pieces[i + 1].word,
        ) ==> pieces[i + 1].gap.len() > 0
}

/// The line that `pieces` and `trailing` lay out.
pub open spec fn written(pieces: Seq<Piece>, trailing: Seq<char>) -> Seq<char>
    decreases pieces.len(),
{
    if pieces.len() == 0 {
        trailing
    } else {
        pieces[0].gap + pieces[0].word + written(pieces.skip(1), trailing)
    }
}

/// The tokens that `pieces` are written for.
pub open spec fn words(pieces: Seq<Piece>) -> Seq<Token> {
    Seq::new(pieces.len(), |i: int| token_of(pieces[i].word))
}

/// White space at the start of a text adds to the run of white space that
/// the text begins with.
pub proof fn lemma_spaces_after_gap(gap: Seq<char>, rest: Seq<char>)
    requires
        blank(gap),
    ensures
        spaces(gap + rest) == gap.len() + spaces(rest),
    decreases gap.len(),
{
    if gap.len() == 0 {
        assert(gap + rest =~= rest);
    } else {
        assert((gap + rest)[0] == gap[0]);
        assert((gap + rest).skip(1) =~= gap.skip(1) + rest);
        assert forall|i: int| 0 <= i < gap.skip(1).len() implies is_space(
            #[trigger] gap.skip(1)[i],
        ) by {
            assert(gap.skip(1)[i] == gap[i + 1]);
        }
        lemma_spaces_after_gap(gap.skip(1), rest);
    }
}

/// Digits at the start of a text add to the run of digits that the text
/// begins with.
pub proof fn lemma_digits_after_run(run: Seq<char>, rest: Seq<char>)
    requires
        forall|i: int| 0 <= i < run.len() ==> is_digit(#[trigger] run[i]),
    ensures
        digits(run + rest) == run.len() + digits(rest),
    decreases run.len(),
{
    if run.len() == 0 {
        assert(run + rest =~= rest);
    } else {
        assert((run + rest)[0] == run[0]);
        assert((run + rest).skip(1) =~= run.skip(1) + rest);
        assert forall|i: int| 0 <= i < run.skip(1).len() implies is_digit(
            #[trigger] run.skip(1)[i],
        ) by {
            assert(run.skip(1)[i] == run[i + 1]);
        }
        lemma_digits_after_run(run.skip(1), rest);
    }
}

/// Whether `text` is empty or begins with a character that is no digit.
pub open spec fn starts_apart(text: Seq<char>) -> bool {
    text.len() == 0 || !is_digit(text[0])
}

/// A laid-out line begins with a digit only where its first word is a
/// numeral that no white space precedes.
pub proof fn lemma_written_starts(pieces: Seq<Piece>, trailing: Seq<char>)
    requires
        laid_out(pieces, trailing),
    ensures
        pieces.len() == 0 || pieces[0].gap.len() > 0 || !is_numeral(pieces[0].word)
            ==> starts_apart(written(pieces, trailing)),
{
    if pieces.len() == 0 {
        if trailing.len() > 0 {
            assert(is_space(trailing[0]));
        }
    } else {
        let rest = written(pieces.skip(1), trailing);
        let text = pieces[0].gap + pieces[0].word + rest;
        assert(is_word(pieces[0].word));
        if pieces[0].gap.len() > 0 {
            assert(text[0] == pieces[0].gap[0]);
            assert(is_space(pieces[0].gap[0]));
        } else {
            assert(text[0] == pieces[0].word[0]);
        }
    }
}

/// What is left of a laid-out line after its first piece is laid out too.
pub proof fn lemma_laid_out_rest(pieces: Seq<Piece>, trailing: Seq<char>)
    requires
        laid_out(pieces, trailing),
        pieces.len() > 0,
    ensures
        laid_out(pieces.skip(1), trailing),
        words(pieces) == seq![token_of(pieces[0].word)] + words(pieces.skip(1)),
{
    let rest = pieces.skip(1);
    assert forall|i: int| 0 <= i < rest.len() implies blank(#[trigger] rest[i].gap) by {
        assert(rest[i] == pieces[i + 1]);
    }
    assert forall|i: int| 0 <= i < rest.len() implies is_word(#[trigger] rest[i].word) by {
        assert(rest[i] == pieces[i + 1]);
    }
    assert forall|i: int|
        0 <= i < rest.len() - 1 && is_numeral(#[trigger] rest[i].word) && is_numeral(
            rest[i + 1].word,
        ) implies rest[i + 1].gap.len() > 0 by {
        assert(rest[i] == pieces[i + 1]);
        assert(rest[i + 1] == pieces[i + 2]);
        assert(is_numeral(pieces[i + 1].word));
    }
    assert(words(pieces) =~= seq![token_of(pieces[0].word)] + words(rest));
}

/// The tokenizer finds a word behind white space, and leaves what follows
/// the word, where that does not begin with a digit that would extend a
/// numeral.
pub proof fn lemma_scan_finds_word(gap: Seq<char>, word: Seq<char>, rest: Seq<char>)
    requires
        blank(gap),
        is_word(word),
        is_numeral(word) ==> starts_apart(rest),
    ensures
        scan(gap + word + rest).token == Ok::<Token, LexError>(token_of(word)),
        scan(gap + word + rest).rest == rest,
{
    let text = gap + word + rest;
    assert(text =~= gap + (word + rest));
    lemma_spaces_after_gap(gap, word + rest);
    assert((word + rest)[0] == word[0]);
    assert(!is_space(word[0]));
    assert(spaces(word + rest) == 0);
    let body = text.skip(spaces(text) as int);
    assert(body =~= word + rest);
    if is_numeral(word) {
        lemma_digits_after_run(word, rest);
        assert(digits(rest) == 0);
        assert(body.take(word.len() as int) =~= word);
        assert(body.skip(word.len() as int) =~= rest);
    } else {
        assert(body.skip(1) =~= rest);
    }
}

/// The tokenizer reads a laid-out line as the tokens that it was written
/// for, and ends without a failure.
pub proof fn theorem_tokens_read_as_written(pieces: Seq<Piece>, trailing: Seq<char>)
    requires
        laid_out(pieces, trailing),
    ensures
        token_stream(written(pieces, trailing)) == (Stream { tokens: words(pieces), fault: None }),
    decreases pieces.len(),
{
    if pieces.len() == 0 {
        assert(trailing =~= trailing + Seq::<char>::empty());
        lemma_spaces_after_gap(trailing, Seq::<char>::empty());
        assert(trailing.skip(trailing.len() as int) =~= Seq::<char>::empty());
        assert(words(pieces) =~= Seq::<Token>::empty());
    } else {
        let rest = written(pieces.skip(1), trailing);
        lemma_laid_out_rest(pieces, trailing);
        lemma_written_starts(pieces.skip(1), trailing);
        if pieces.len() > 1 {
            assert(pieces.skip(1)[0] == pieces[1]);
        }
        lemma_scan_finds_word(pieces[0].gap, pieces[0].word, rest);
        theorem_tokens_read_as_written(pieces.skip(1), trailing);
    }
}

/// A line that is written for the tokens of a well-formed tree, with any
/// white space around them, evaluates to what the tree means.
pub proof fn theorem_line_reads_as_written(t: Syntax, pieces: Seq<Piece>, trailing: Seq<char>)
    requires
        t.well_formed(),
        laid_out(pieces, trailing),
        words(pieces) == t.tokens(),
    ensures
        evaluation(token_stream(written(pieces, trailing))) == Ok::<Value, EvalError>(t.meaning()),
{
    theorem_tokens_read_as_written(pieces, trailing);
    theorem_evaluation_reads_as_written(t);
}

} // verus!
