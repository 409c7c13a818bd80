use vstd::prelude::*;
use vstd::std_specs::iter::IteratorSpec;
use crate::error::LexError;
use crate::scan::{Scan, Stream};
use crate::token::{is_operator, Token};
use crate::value::Value;

verus! {

/// Whether `c` is white space: a character with the Unicode property
/// `White_Space`.
pub open spec fn is_space(c: char) -> bool {
    ||| '\u{0009}' <= c <= '\u{000D}'
    ||| c == ' '
    ||| c == '\u{0085}'
    ||| c == '\u{00A0}'
    ||| c == '\u{1680}'
    ||| '\u{2000}' <= c <= '\u{200A}'
    ||| c == '\u{2028}'
    ||| c == '\u{2029}'
    ||| c == '\u{202F}'
    ||| c == '\u{205F}'
    ||| c == '\u{3000}'
}

/// Whether `c` is one of the ten ASCII decimal digits.
pub open spec fn is_digit(c: char) -> bool {
    '0' <= c <= '9'
}

/// What the digit `c` counts for.
pub open spec fn digit_value(c: char) -> nat {
    (c as nat - '0' as nat) as nat
}

/// The length of the run of white space that `text` begins with.
pub open spec fn spaces(text: Seq<char>) -> nat
    decreases text.len(),
{
    if text.len() > 0 && is_space(text[0]) {
        1 + spaces(text.skip(1))
    } else {
        0
    }
}

/// The length of the run of digits that `text` begins with.
pub open spec fn digits(text: Seq<char>) -> nat
    decreases text.len(),
{
    if text.len() > 0 && is_digit(text[0]) {
        1 + digits(text.skip(1))
    } else {
        0
    }
}

/// The number that a run of digits stands for in base ten.
pub open spec fn decimal(run: Seq<char>) -> nat
    decreases run.len(),
{
    if run.len() == 0 {
        0
    } else {
        decimal(run.drop_last()) * 10 + digit_value(run.last())
    }
}

/// One request to the tokenizer: its answer, and the text that is left.
pub struct Scanned {
    /// The token, or why there is none.
    pub token: Result<Token, LexError>,
    /// The text after the token. A failure takes nothing away.
    pub rest: Seq<char>,
}

/// The first token of `text`.
///
/// Leading white space is skipped. What follows is the end of the input, a
/// maximal run of digits read as a number in base ten, or a single operator
/// character. Anything else is a failure, and so is a number above
/// `u64::MAX`.
pub open spec fn scan(text: Seq<char>) -> Scanned {
    let body = text.skip(spaces(text) as int);
    if body.len() == 0 {
        Scanned { token: Ok(Token::End), rest: body }
    } else if is_digit(body[0]) {
        let n = decimal(body.take(digits(body) as int));
        if n <= u64::MAX {
            Scanned {
                token: Ok(Token::Number(Value::Literal(n as u64))),
                rest: body.skip(digits(body) as int),
            }
        } else {
            Scanned { token: Err(LexError::NumberTooLarge), rest: text }
        }
    } else if is_operator(body[0]) {
        Scanned { token: Ok(Token::Operator(body[0])), rest: body.skip(1) }
    } else {
        Scanned { token: Err(LexError::UnrecognizedCharacter(body[0])), rest: text }
    }
}

/// A run of white space is no longer than the text it begins.
pub proof fn lemma_spaces_bound(text: Seq<char>)
    ensures
        spaces(text) <= text.len(),
    decreases text.len(),
{
    if text.len() > 0 && is_space(text[0]) {
        lemma_spaces_bound(text.skip(1));
    }
}

/// A run of digits is no longer than the text it begins.
pub proof fn lemma_digits_bound(text: Seq<char>)
    ensures
        digits(text) <= text.len(),
        text.len() > 0 && is_digit(text[0]) ==> digits(text) >= 1,
    decreases text.len(),
{
    if text.len() > 0 && is_digit(text[0]) {
        lemma_digits_bound(text.skip(1));
    }
}

/// A token that is not `End` takes at least one character off the text.
pub proof fn lemma_scan_shortens(text: Seq<char>)
    ensures
        scan(text).rest.len() <= text.len(),
        scan(text).token is Ok && scan(text).token != Ok::<Token, LexError>(Token::End)
            ==> scan(text).rest.len() < text.len(),
{
    lemma_spaces_bound(text);
    lemma_digits_bound(text.skip(spaces(text) as int));
}

/// All that a tokenizer gives for `text`: the tokens up to the end of the
/// input or up to the first failure.
pub open spec fn token_stream(text: Seq<char>) -> Stream
    decreases text.len(),
{
    let first = scan(text);
    match first.token {
        Err(e) => Stream { tokens: Seq::empty(), fault: Some(e) },
        Ok(Token::End) => Stream { tokens: Seq::empty(), fault: None },
        Ok(t) => {
            proof {
                lemma_scan_shortens(text);
            }
            let later = token_stream(first.rest);
            Stream { tokens: seq![t] + later.tokens, fault: later.fault }
        },
    }
}

/// The stream of a text begins with the text's first token and goes on with
/// the stream of what that token leaves.
pub proof fn lemma_stream_unfolds(text: Seq<char>)
    ensures
        token_stream(text).head() == scan(text).token,
        token_stream(text).tail() == token_stream(scan(text).rest),
{
    let first = scan(text);
    match first.token {
        Err(_) => {},
        Ok(Token::End) => {
            assert(first.rest.len() == 0);
            assert(spaces(first.rest) == 0);
            assert(first.rest.skip(0) =~= first.rest);
        },
        Ok(t) => {
            let later = token_stream(first.rest);
            assert((seq![t] + later.tokens).skip(1) =~= later.tokens);
        },
    }
}

/// Once the tokenizer has answered `End`, it answers `End` to every
/// request.
pub proof fn lemma_end_is_final(text: Seq<char>)
    requires
        scan(text).token == Ok::<Token, LexError>(Token::End),
    ensures
        scan(scan(text).rest).token == Ok::<Token, LexError>(Token::End),
        scan(scan(text).rest).rest == scan(text).rest,
{
    let rest = scan(text).rest;
    assert(rest.len() == 0);
    assert(spaces(rest) == 0);
    assert(rest.skip(0) =~= rest);
}

/// The value of a run of digits does not fall when the run is extended.
pub proof fn lemma_decimal_prefix(run: Seq<char>, k: int)
    requires
        0 <= k <= run.len(),
    ensures
        decimal(run.take(k)) <= decimal(run),
    decreases run.len(),
{
    if k == run.len() {
        assert(run.take(k) =~= run);
    } else {
        lemma_decimal_prefix(run.drop_last(), k);
        assert(run.drop_last().take(k) =~= run.take(k));
    }
}

/// Tests whether `c` is white space.
pub fn is_whitespace(c: char) -> (r: bool)
    ensures
        r == is_space(c),
{
    (c >= '\u{0009}' && c <= '\u{000D}') || c == ' ' || c == '\u{0085}' || c == '\u{00A0}' || c
        == '\u{1680}' || (c >= '\u{2000}' && c <= '\u{200A}') || c == '\u{2028}' || c
        == '\u{2029}' || c == '\u{202F}' || c == '\u{205F}' || c == '\u{3000}'
}

/// Tests whether `c` is an ASCII decimal digit.
pub fn is_decimal_digit(c: char) -> (r: bool)
    ensures
        r == is_digit(c),
{
    c >= '0' && c <= '9'
}

/// Tests whether `c` makes an operator token.
pub fn is_operator_char(c: char) -> (r: bool)
    ensures
        r == is_operator(c),
{
    c == '+' || c == '-' || c == '*' || c == '/' || c == '%' || c == '(' || c == ')'
}

/// What the digit `c` counts for.
fn digit_of(c: char) -> (d: u64)
    requires
        is_digit(c),
    ensures
        d == digit_value(c),
        d <= 9,
{
    (c as u64) - ('0' as u64)
}

/// The characters of `text`, in order.
pub fn characters(text: &str) -> (v: Vec<char>)
    ensures
        v@ == text@,
{
    let mut v: Vec<char> = Vec::new();
    let mut it = text.chars();
    loop
        invariant
            v@ + it.remaining() == text@,
            it.decrease() is Some,
        ensures
            v@ == text@,
        decreases it.decrease()->0,
    {
        match it.next() {
            Some(c) => {
                v.push(c);
            },
            None => {
                assert(v@ + it.remaining() =~= v@);
                break;
            },
        }
    }
    v
}

/// The tokenizer: a cursor over the text of one line.
pub struct Lexer {
    chars: Vec<char>,
    pos: usize,
}

impl View for Lexer {
    type V = Seq<char>;

    /// The text that no token has taken yet.
    closed spec fn view(&self) -> Seq<char> {
        self.chars@.skip(self.pos as int)
    }
}

impl Lexer {
    #[verifier::type_invariant]
    spec fn in_bounds(self) -> bool {
        self.pos <= self.chars.len()
    }

    /// A tokenizer at the start of the line `s`.
    pub fn new(s: String) -> (l: Self)
        ensures
            l@ == s@,
    {
        Lexer { chars: characters(s.as_str()), pos: 0 }
    }

    /// The index of the first character at or after `from` that is no white
    /// space.
    fn skip_spaces(&self, from: usize) -> (i: usize)
        requires
            from <= self.chars.len(),
        ensures
            i == from + spaces(self.chars@.skip(from as int)),
            i <= self.chars.len(),
    {
        let n: usize = self.chars.len();
        let mut i: usize = from;
        while i < n && is_whitespace(self.chars[i])
            invariant
                from <= i <= n,
                n == self.chars.len(),
                from + spaces(self.chars@.skip(from as int)) == i + spaces(
                    self.chars@.skip(i as int),
                ),
            decreases n - i,
        {
            assert(self.chars@.skip(i as int).skip(1) =~= self.chars@.skip(i + 1));
            i = i + 1;
        }
        i
    }

    /// Reads the run of digits that starts at `from`: the number it stands
    /// for and the index after it, or nothing where the number is above
    /// `u64::MAX`.
    fn read_digits(&self, from: usize) -> (r: Option<(u64, usize)>)
        requires
            from <= self.chars.len(),
        ensures
            ({
                let body = self.chars@.skip(from as int);
                let n = decimal(body.take(digits(body) as int));
                match r {
                    Some((value, end)) => n == value && end == from + digits(body) && end
                        <= self.chars.len(),
                    None => n > u64::MAX,
                }
            }),
    {
        let n: usize = self.chars.len();
        let ghost body = self.chars@.skip(from as int);
        let mut i: usize = from;
        let mut value: u64 = 0;
        assert(body.take(0) =~= Seq::<char>::empty());
        while i < n && is_decimal_digit(self.chars[i])
            invariant
                from <= i <= n,
                n == self.chars.len(),
                body == self.chars@.skip(from as int),
                digits(body) == (i - from) + digits(self.chars@.skip(i as int)),
                value == decimal(body.take(i - from)),
            decreases n - i,
        {
            let d: u64 = digit_of(self.chars[i]);
            proof {
                let k = i - from;
                lemma_digits_bound(self.chars@.skip(i as int));
                assert(self.chars@.skip(i as int).skip(1) =~= self.chars@.skip(i + 1));
                assert(body.take(k + 1).drop_last() =~= body.take(k));
                assert(body.take(k + 1).last() == self.chars@[i as int]);
                assert(decimal(body.take(k + 1)) == value * 10 + d);
                lemma_digits_bound(body);
                lemma_decimal_prefix(body.take(digits(body) as int), k + 1);
                assert(body.take(digits(body) as int).take(k + 1) =~= body.take(k + 1));
            }
            if value > (u64::MAX - d) / 10 {
                return None;
            }
            value = value * 10 + d;
            i = i + 1;
        }
        Some((value, i))
    }
}

impl Scan for Lexer {
    /// The tokens of the text that is left.
    open spec fn upcoming(&self) -> Stream {
        token_stream(self@)
    }

    /// Takes the first token off the text that is left. A failure leaves
    /// the text as it is.
    fn next(&mut self) -> (r: Result<Token, LexError>)
        ensures
            r == scan(old(self)@).token,
            final(self)@ == scan(old(self)@).rest,
    {
        proof {
            use_type_invariant(&*self);
            lemma_stream_unfolds(self@);
        }
        let ghost text = self@;
        let start: usize = self.skip_spaces(self.pos);
        let ghost body = text.skip(spaces(text) as int);
        assert(body =~= self.chars@.skip(start as int));
        if start >= self.chars.len() {
            self.pos = start;
            return Ok(Token::End);
        }
        let first = self.chars[start];
        assert(first == body[0]);
        if is_decimal_digit(first) {
            match self.read_digits(start) {
                Some((value, end)) => {
                    assert(body.skip(digits(body) as int) =~= self.chars@.skip(end as int));
                    self.pos = end;
                    Ok(Token::Number(Value::Literal(value)))
                },
                None => Err(LexError::NumberTooLarge),
            }
        } else if is_operator_char(first) {
            assert(body.skip(1) =~= self.chars@.skip(start + 1));
            self.pos = start + 1;
            Ok(Token::Operator(first))
        } else {
            Err(LexError::UnrecognizedCharacter(first))
        }
    }
}

} // verus!
