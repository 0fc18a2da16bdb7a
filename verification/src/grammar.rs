//! The lexical grammar, as functions from a buffer and an offset to what
//! stands there.
use vstd::prelude::*;
use crate::ascii::{
    ascii_text, is_digit, is_whitespace, is_word_byte, is_word_start, BACKSLASH, CLOSE_BRACE,
    OPEN_BRACE, QUOTE,
};
use crate::error::LexErrorKind;
use crate::token::{reserved_index, reserved_words, Token, TokenView, MAX_ID_LENGTH};

verus! {

/// What scanning from some offset of a buffer comes to.
pub enum Outcome {
    /// A token that takes the bytes from `start` up to `end`. For the end of
    /// the input both are the length of the buffer.
    Token { token: TokenView, start: int, end: int },
    /// No token: what is wrong, the offset of the byte that the failure is
    /// reported at, and the offending byte where there is one.
    Failure { kind: LexErrorKind, at: int, byte: Option<u8> },
}

/// The offset at which the run of bytes of one class that starts at `from`
/// ends: that of the first byte at or after `from` that is not in the class,
/// or the length of the buffer.
pub open spec fn run_end(bytes: Seq<u8>, from: int, class: spec_fn(u8) -> bool) -> int
    decreases bytes.len() - from,
{
    if 0 <= from < bytes.len() && class(bytes[from]) {
        run_end(bytes, from + 1, class)
    } else {
        from
    }
}

/// Where the whitespace that starts at `from` ends.
pub open spec fn whitespace_end(bytes: Seq<u8>, from: int) -> int {
    run_end(bytes, from, |b: u8| is_whitespace(b))
}

/// Where the run of letters, digits and underscores that starts at `from`
/// ends.
pub open spec fn word_end(bytes: Seq<u8>, from: int) -> int {
    run_end(bytes, from, |b: u8| is_word_byte(b))
}

/// Where the run of digits that starts at `from` ends.
pub open spec fn digits_end(bytes: Seq<u8>, from: int) -> int {
    run_end(bytes, from, |b: u8| is_digit(b))
}

/// The offset after the `}` that closes the comment around `from`, where
/// `depth` comments are open at `from`; `None` where the input ends first.
/// Comments nest: each `{` opens one more and each `}` closes the innermost.
pub open spec fn comment_end(bytes: Seq<u8>, from: int, depth: nat) -> Option<int>
    decreases bytes.len() - from,
{
    if from < 0 || from >= bytes.len() {
        None
    } else if bytes[from] == OPEN_BRACE {
        comment_end(bytes, from + 1, depth + 1)
    } else if bytes[from] == CLOSE_BRACE {
        if depth <= 1 {
            Some(from + 1)
        } else {
            comment_end(bytes, from + 1, (depth - 1) as nat)
        }
    } else {
        comment_end(bytes, from + 1, depth)
    }
}

/// A run ends at or after its start and within the buffer; the bytes up to
/// its end are of the class, and the byte at its end is not.
pub proof fn lemma_run_end(bytes: Seq<u8>, from: int, class: spec_fn(u8) -> bool)
    requires
        0 <= from <= bytes.len(),
    ensures
        from <= run_end(bytes, from, class) <= bytes.len(),
        forall|i: int| from <= i < run_end(bytes, from, class) ==> class(#[trigger] bytes[i]),
        run_end(bytes, from, class) < bytes.len() ==> !class(bytes[run_end(bytes, from, class)]),
    decreases bytes.len() - from,
{
    if from < bytes.len() && class(bytes[from]) {
        lemma_run_end(bytes, from + 1, class);
    }
}

/// A run that is entered anywhere inside ends where the whole run ends.
pub proof fn lemma_run_end_within(
    bytes: Seq<u8>,
    from: int,
    inside: int,
    class: spec_fn(u8) -> bool,
)
    requires
        0 <= from <= inside <= run_end(bytes, from, class),
    ensures
        run_end(bytes, inside, class) == run_end(bytes, from, class),
    decreases inside - from,
{
    if from < inside {
        lemma_run_end(bytes, from, class);
        if from < bytes.len() && class(bytes[from]) {
            lemma_run_end_within(bytes, from + 1, inside, class);
        }
    }
}

/// A comment that closes does so after its first byte and within the buffer.
pub proof fn lemma_comment_end(bytes: Seq<u8>, from: int, depth: nat)
    requires
        0 <= from,
    ensures
        comment_end(bytes, from, depth) matches Some(end) ==> from < end <= bytes.len(),
    decreases bytes.len() - from,
{
    if from < bytes.len() {
        if bytes[from] == OPEN_BRACE {
            lemma_comment_end(bytes, from + 1, depth + 1);
        } else if bytes[from] == CLOSE_BRACE {
            if depth > 1 {
                lemma_comment_end(bytes, from + 1, (depth - 1) as nat);
            }
        } else {
            lemma_comment_end(bytes, from + 1, depth);
        }
    }
}

/// The offset of the first byte at or after `from` that is neither
/// whitespace nor part of a comment, or the length of the buffer where none
/// is left. Where a comment is left open, the offset of its `{` comes back
/// as the error: it is the outermost brace without a partner.
pub open spec fn token_start(bytes: Seq<u8>, from: int) -> Result<int, int>
    decreases bytes.len() - from,
{
    let at: int = whitespace_end(bytes, from);
    if 0 <= from && at < bytes.len() && bytes[at] == OPEN_BRACE {
        match comment_end(bytes, at + 1, 1) {
            Some(after) => {
                proof {
                    lemma_run_end(bytes, from, |b: u8| is_whitespace(b));
                    lemma_comment_end(bytes, at + 1, 1);
                }
                token_start(bytes, after)
            },
            None => Err(at),
        }
    } else {
        Ok(at)
    }
}

/// The number that a run of digits denotes in base ten.
pub open spec fn decimal_value(digits: Seq<u8>) -> nat
    decreases digits.len(),
{
    if digits.len() == 0 {
        0
    } else {
        (decimal_value(digits.drop_last()) * 10 + (digits.last() - '0' as u8)) as nat
    }
}

/// The word that starts at `at`: the run of letters, digits and underscores
/// from there. It is a reserved word's token where the table has its
/// spelling and an identifier otherwise; more than `MAX_ID_LENGTH` bytes are
/// too long for either.
pub open spec fn word_at(bytes: Seq<u8>, at: int) -> Outcome {
    let end: int = word_end(bytes, at);
    let text = ascii_text(bytes.subrange(at, end));
    if end - at > MAX_ID_LENGTH {
        Outcome::Failure { kind: LexErrorKind::IdentifierTooLong, at, byte: None }
    } else {
        Outcome::Token {
            token: match reserved_index(text) {
                Some(index) => TokenView::Plain(reserved_words()[index].1),
                None => TokenView::Id(text),
            },
            start: at,
            end,
        }
    }
}

/// The integer literal that starts at `at`: the run of digits from there,
/// read in base ten. Its value must not be above `i32::MAX`.
pub open spec fn number_at(bytes: Seq<u8>, at: int) -> Outcome {
    let end: int = digits_end(bytes, at);
    let value: nat = decimal_value(bytes.subrange(at, end));
    if value > i32::MAX {
        Outcome::Failure { kind: LexErrorKind::NumberTooLarge, at, byte: None }
    } else {
        Outcome::Token { token: TokenView::Number(value as i32), start: at, end }
    }
}

/// What the inside of a string literal comes to.
pub enum StringBody {
    /// The closing quote was found: the characters before it, and the offset
    /// after it.
    Closed { text: Seq<char>, end: int },
    /// A byte that a string literal cannot hold, at offset `at`.
    Invalid { kind: LexErrorKind, at: int, byte: u8 },
    /// The input ended before the closing quote.
    Unterminated,
}

impl Outcome {
    /// The same outcome with every offset moved on by `by`.
    pub open spec fn shifted(self, by: int) -> Outcome {
        match self {
            Outcome::Token { token, start, end } => Outcome::Token {
                token,
                start: start + by,
                end: end + by,
            },
            Outcome::Failure { kind, at, byte } => Outcome::Failure { kind, at: at + by, byte },
        }
    }
}

impl StringBody {
    /// The same body with every offset moved on by `by`.
    pub open spec fn shifted(self, by: int) -> StringBody {
        match self {
            StringBody::Closed { text, end } => StringBody::Closed { text, end: end + by },
            StringBody::Invalid { kind, at, byte } => StringBody::Invalid {
                kind,
                at: at + by,
                byte,
            },
            StringBody::Unterminated => StringBody::Unterminated,
        }
    }

    /// The same body with `head` in front of its characters.
    pub open spec fn after(self, head: Seq<char>) -> StringBody {
        match self {
            StringBody::Closed { text, end } => StringBody::Closed { text: head + text, end },
            _ => self,
        }
    }
}

/// The inside of a string literal from `from` on.
///
/// A `"` closes the literal. A backslash takes the byte after it along:
/// before `n`, `t` and `"` the backslash is dropped and that byte stands for
/// itself, a backslash before a backslash leaves both in the text, and
/// before any other byte it is an illegal escape. A byte of 128 or more is
/// not printable. Every other byte stands for itself.
pub open spec fn string_body(bytes: Seq<u8>, from: int) -> StringBody
    decreases bytes.len() - from,
{
    if from < 0 || from >= bytes.len() {
        StringBody::Unterminated
    } else if bytes[from] == QUOTE {
        StringBody::Closed { text: Seq::empty(), end: from + 1 }
    } else if bytes[from] >= 128 {
        StringBody::Invalid {
            kind: LexErrorKind::NonPrintableCharacter,
            at: from,
            byte: bytes[from],
        }
    } else if bytes[from] == BACKSLASH {
        if from + 1 >= bytes.len() {
            StringBody::Unterminated
        } else {
            let escaped: u8 = bytes[from + 1];
            if escaped == 'n' as u8 || escaped == 't' as u8 || escaped == QUOTE {
                string_body(bytes, from + 2).after(seq![escaped as char])
            } else if escaped == BACKSLASH {
                string_body(bytes, from + 2).after(seq!['\\', '\\'])
            } else {
                StringBody::Invalid {
                    kind: LexErrorKind::IllegalEscapeCode,
                    at: from + 1,
                    byte: escaped,
                }
            }
        }
    } else {
        string_body(bytes, from + 1).after(seq![bytes[from] as char])
    }
}

/// The string literal whose opening quote is at `at`.
pub open spec fn string_at(bytes: Seq<u8>, at: int) -> Outcome {
    match string_body(bytes, at + 1) {
        StringBody::Closed { text, end } => Outcome::Token {
            token: TokenView::StringLiteral(text),
            start: at,
            end,
        },
        StringBody::Invalid { kind, at: place, byte } => Outcome::Failure {
            kind,
            at: place,
            byte: Some(byte),
        },
        StringBody::Unterminated => Outcome::Failure {
            kind: LexErrorKind::UnterminatedString,
            at,
            byte: None,
        },
    }
}

/// The operator or punctuation mark that `first` starts, given the byte
/// after it where there is one, with the number of bytes that it takes.
pub open spec fn symbol(first: u8, second: Option<u8>) -> Option<(Token, int)> {
    match first as char {
        ']' => Some((Token::CloseBracket, 1)),
        ')' => Some((Token::CloseParenthesis, 1)),
        ',' => Some((Token::Comma, 1)),
        '/' => Some((Token::Divide, 1)),
        '.' => Some((Token::Concatenate, 1)),
        '=' => Some((Token::Equal, 1)),
        '[' => Some((Token::OpenBracket, 1)),
        '*' => Some((Token::Multiply, 1)),
        '+' => Some((Token::Plus, 1)),
        ';' => Some((Token::Semicolon, 1)),
        '-' => Some((Token::Minus, 1)),
        '(' => Some((Token::OpenParenthesis, 1)),
        ':' => if second == Some('=' as u8) {
            Some((Token::Gets, 2))
        } else {
            None
        },
        '>' => if second == Some('=' as u8) {
            Some((Token::GreaterEqual, 2))
        } else {
            Some((Token::GreaterThan, 1))
        },
        '<' => if second == Some('=' as u8) {
            Some((Token::LessEqual, 2))
        } else if second == Some('>' as u8) {
            Some((Token::NotEqual, 2))
        } else {
            Some((Token::LessThan, 1))
        },
        _ => None,
    }
}

/// The byte at `at`, where the buffer has one.
pub open spec fn byte_at(bytes: Seq<u8>, at: int) -> Option<u8> {
    if 0 <= at < bytes.len() {
        Some(bytes[at])
    } else {
        None
    }
}

/// The operator or punctuation mark at `at`; a byte that starts none is an
/// illegal character.
pub open spec fn symbol_at(bytes: Seq<u8>, at: int) -> Outcome {
    match symbol(bytes[at], byte_at(bytes, at + 1)) {
        Some((token, length)) => Outcome::Token {
            token: TokenView::Plain(token),
            start: at,
            end: at + length,
        },
        None => Outcome::Failure {
            kind: LexErrorKind::IllegalCharacter,
            at,
            byte: Some(bytes[at]),
        },
    }
}

/// The token whose first byte is at `at`; at the end of the buffer, the end
/// of the input.
pub open spec fn token_at(bytes: Seq<u8>, at: int) -> Outcome {
    if at < 0 || at >= bytes.len() {
        Outcome::Token { token: TokenView::Plain(Token::Eof), start: at, end: at }
    } else if is_word_start(bytes[at]) {
        word_at(bytes, at)
    } else if is_digit(bytes[at]) {
        number_at(bytes, at)
    } else if bytes[at] == QUOTE {
        string_at(bytes, at)
    } else {
        symbol_at(bytes, at)
    }
}

/// What a scanner whose cursor is at `from` finds next: whitespace and
/// comments are passed over, and the token after them is read.
pub open spec fn next_token(bytes: Seq<u8>, from: int) -> Outcome {
    match token_start(bytes, from) {
        Ok(at) => token_at(bytes, at),
        Err(opening) => Outcome::Failure {
            kind: LexErrorKind::UnterminatedComment,
            at: opening,
            byte: None,
        },
    }
}

/// A run of digits denotes at least what any of its beginnings denotes.
pub proof fn lemma_decimal_value_of_prefix(digits: Seq<u8>, length: int)
    requires
        0 <= length <= digits.len(),
        forall|i: int| 0 <= i < digits.len() ==> is_digit(#[trigger] digits[i]),
    ensures
        decimal_value(digits.take(length)) <= decimal_value(digits),
    decreases digits.len() - length,
{
    if length == digits.len() {
        assert(digits.take(length) =~= digits);
    } else {
        lemma_decimal_value_of_prefix(digits.drop_last(), length);
        assert(digits.drop_last().take(length) =~= digits.take(length));
    }
}

/// Putting `first` and then `second` in front of a string body puts their
/// concatenation in front of it.
pub proof fn lemma_string_body_after(body: StringBody, first: Seq<char>, second: Seq<char>)
    ensures
        body.after(second).after(first) == body.after(first + second),
        body.after(Seq::empty()) == body,
{
    match body {
        StringBody::Closed { text, end } => {
            assert(first + (second + text) =~= (first + second) + text);
            assert(Seq::<char>::empty() + text =~= text);
        },
        _ => {},
    }
}

/// Whitespace before a token does not change where the token starts.
pub proof fn lemma_token_start_after_whitespace(bytes: Seq<u8>, from: int)
    requires
        0 <= from <= bytes.len(),
    ensures
        from <= whitespace_end(bytes, from) <= bytes.len(),
        token_start(bytes, whitespace_end(bytes, from)) == token_start(bytes, from),
        whitespace_end(bytes, whitespace_end(bytes, from)) == whitespace_end(bytes, from),
{
    lemma_run_end(bytes, from, |b: u8| is_whitespace(b));
    lemma_run_end_within(bytes, from, whitespace_end(bytes, from), |b: u8| is_whitespace(b));
}

/// A run ends at the first byte that is not of its class.
pub proof fn lemma_run_end_is(
    bytes: Seq<u8>,
    from: int,
    end: int,
    class: spec_fn(u8) -> bool,
)
    requires
        0 <= from <= end <= bytes.len(),
        forall|i: int| from <= i < end ==> class(#[trigger] bytes[i]),
        end < bytes.len() ==> !class(bytes[end]),
    ensures
        run_end(bytes, from, class) == end,
    decreases end - from,
{
    if from < end {
        lemma_run_end_is(bytes, from + 1, end, class);
    }
}

} // verus!
