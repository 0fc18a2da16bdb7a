//! What holds of the grammar on every input.
use vstd::prelude::*;
use crate::ascii::{
    ascii_text, is_digit, is_whitespace, is_word_byte, is_word_start, lemma_ascii_round_trip,
    BACKSLASH, CLOSE_BRACE, NEWLINE, OPEN_BRACE, QUOTE, SPACE,
};
use crate::error::{
    column_at, lemma_position_bounds, lemma_position_of_prefix, line_at, LexErrorKind,
};
use crate::grammar::{
    byte_at, comment_end, decimal_value, lemma_comment_end, lemma_run_end, lemma_run_end_is,
    lemma_token_start_after_whitespace,
    next_token, run_end, string_body, token_at, token_start, whitespace_end, word_end,
    Outcome, StringBody,
};
use crate::token::{
    lemma_reserved_index, lemma_reserved_tokens_are_plain, lemma_reserved_words_are_lower_case,
    lemma_reserved_words_spelled, reserved_bytes, reserved_index, reserved_words, Token,
    TokenView, MAX_ID_LENGTH, RESERVED_WORD_COUNT,
};

verus! {

/// Lines count from 1. Consuming a newline moves the place to column 1 of
/// the next line; consuming any other byte moves it on by one column of the
/// same line.
pub proof fn lemma_position_advances(bytes: Seq<u8>, offset: int)
    requires
        0 <= offset < bytes.len(),
    ensures
        line_at(bytes, offset) >= 1,
        bytes[offset] == NEWLINE ==> line_at(bytes, offset + 1) == line_at(bytes, offset) + 1
            && column_at(bytes, offset + 1) == 1,
        bytes[offset] != NEWLINE ==> line_at(bytes, offset + 1) == line_at(bytes, offset)
            && column_at(bytes, offset + 1) == column_at(bytes, offset) + 1,
{
    lemma_position_bounds(bytes, offset);
}

/// At the end of the buffer the next token is the end of the input, and it
/// takes no bytes: the same holds again after it. An empty buffer is
/// at its end from the start.
pub proof fn lemma_end_of_input_repeats(bytes: Seq<u8>)
    ensures
        next_token(bytes, bytes.len() as int) == (Outcome::Token {
            token: TokenView::Plain(Token::Eof),
            start: bytes.len() as int,
            end: bytes.len() as int,
        }),
{
}

/// The end of the input is handed out at the end of the buffer only, so that
/// once it was handed out, every later call hands it out again.
pub proof fn lemma_end_of_input_is_final(bytes: Seq<u8>, from: int)
    requires
        0 <= from <= bytes.len(),
        next_token(bytes, from) matches Outcome::Token { token, .. } && token == TokenView::Plain(
            Token::Eof,
        ),
    ensures
        next_token(bytes, from) == next_token(bytes, bytes.len() as int),
{
    lemma_token_start_bounds(bytes, from);
    let at: int = token_start(bytes, from)->Ok_0;
    if at < bytes.len() {
        if is_word_start(bytes[at]) {
            let text = ascii_text(bytes.subrange(at, word_end(bytes, at)));
            if reserved_index(text) is Some {
                lemma_reserved_words_spelled();
            }
        }
    }
}

/// Where a token starts lies between the cursor and the end of the buffer,
/// and so does the brace of a comment that is left open.
pub proof fn lemma_token_start_bounds(bytes: Seq<u8>, from: int)
    requires
        0 <= from <= bytes.len(),
    ensures
        (match token_start(bytes, from) {
            Ok(at) => from <= at <= bytes.len(),
            Err(opening) => from <= opening < bytes.len(),
        }),
    decreases bytes.len() - from,
{
    let at: int = whitespace_end(bytes, from);
    lemma_run_end(bytes, from, |b: u8| is_whitespace(b));
    if at < bytes.len() && bytes[at] == OPEN_BRACE {
        lemma_comment_end(bytes, at + 1, 1);
        match comment_end(bytes, at + 1, 1) {
            Some(after) => {
                lemma_token_start_bounds(bytes, after);
            },
            None => {},
        }
    }
}

/// A buffer whose first byte starts a token has that token at offset 0.
proof fn lemma_starts_at_once(bytes: Seq<u8>)
    requires
        bytes.len() > 0,
        !is_whitespace(bytes[0]),
        bytes[0] != OPEN_BRACE,
    ensures
        token_start(bytes, 0) == Ok::<int, int>(0),
        next_token(bytes, 0) == token_at(bytes, 0),
{
}

/// The decimal numeral of `n`, without sign and without leading zeros.
pub open spec fn decimal_digits(n: nat) -> Seq<u8>
    decreases n,
{
    if n < 10 {
        seq![('0' as u8 + n) as u8]
    } else {
        decimal_digits(n / 10).push(('0' as u8 + n % 10) as u8)
    }
}

/// A decimal numeral is a run of digits that denotes its number.
pub proof fn lemma_decimal_digits(n: nat)
    ensures
        decimal_digits(n).len() >= 1,
        forall|i: int| 0 <= i < decimal_digits(n).len() ==> is_digit(#[trigger] decimal_digits(n)[i]),
        decimal_value(decimal_digits(n)) == n,
    decreases n,
{
    if n < 10 {
        let digits = decimal_digits(n);
        assert(digits.drop_last() =~= Seq::<u8>::empty());
        assert(decimal_value(digits.drop_last()) == 0);
    } else {
        lemma_decimal_digits(n / 10);
        let digits = decimal_digits(n);
        assert(digits.drop_last() =~= decimal_digits(n / 10));
    }
}

/// A buffer that is one run of digits scans as the integer literal of the
/// number that the digits denote, or fails as too large where that number is
/// above `i32::MAX`.
pub proof fn lemma_digits_scan_as_number(digits: Seq<u8>)
    requires
        digits.len() >= 1,
        forall|i: int| 0 <= i < digits.len() ==> is_digit(#[trigger] digits[i]),
    ensures
        decimal_value(digits) <= i32::MAX ==> next_token(digits, 0) == (Outcome::Token {
            token: TokenView::Number(decimal_value(digits) as i32),
            start: 0,
            end: digits.len() as int,
        }),
        decimal_value(digits) > i32::MAX ==> next_token(digits, 0) == (Outcome::Failure {
            kind: LexErrorKind::NumberTooLarge,
            at: 0,
            byte: None,
        }),
{
    lemma_starts_at_once(digits);
    lemma_run_end_is(digits, 0, digits.len() as int, |b: u8| is_digit(b));
    assert(digits.subrange(0, digits.len() as int) =~= digits);
}

/// Every number up to `i32::MAX`, written in decimal, scans as the integer
/// literal of that number.
pub proof fn lemma_decimal_scans_as_number(n: nat)
    requires
        n <= i32::MAX,
    ensures
        next_token(decimal_digits(n), 0) == (Outcome::Token {
            token: TokenView::Number(n as i32),
            start: 0,
            end: decimal_digits(n).len() as int,
        }),
{
    lemma_decimal_digits(n);
    lemma_digits_scan_as_number(decimal_digits(n));
}

/// A buffer that is one word of at most `MAX_ID_LENGTH` bytes, and not a
/// reserved word, scans as the identifier of that spelling. A word begins
/// with a letter or an underscore: what begins with a digit is a number.
pub proof fn lemma_word_scans_as_identifier(word: Seq<u8>)
    requires
        1 <= word.len() <= MAX_ID_LENGTH,
        is_word_start(word[0]),
        forall|i: int| 0 <= i < word.len() ==> is_word_byte(#[trigger] word[i]),
        forall|k: int| 0 <= k < RESERVED_WORD_COUNT ==> reserved_words()[k].0 != ascii_text(word),
    ensures
        next_token(word, 0) == (Outcome::Token {
            token: TokenView::Id(ascii_text(word)),
            start: 0,
            end: word.len() as int,
        }),
{
    lemma_starts_at_once(word);
    lemma_run_end_is(word, 0, word.len() as int, |b: u8| is_word_byte(b));
    assert(word.subrange(0, word.len() as int) =~= word);
    lemma_reserved_words_spelled();
}

/// Each reserved word, alone in a buffer, scans as its own token and not as
/// an identifier.
pub proof fn lemma_reserved_word_scans_as_its_token(index: int)
    requires
        0 <= index < RESERVED_WORD_COUNT,
    ensures
        next_token(reserved_bytes(index), 0) == (Outcome::Token {
            token: TokenView::Plain(reserved_words()[index].1),
            start: 0,
            end: reserved_bytes(index).len() as int,
        }),
        !(reserved_words()[index].1 is Id),
{
    let spelling = reserved_words()[index].0;
    let word = reserved_bytes(index);
    lemma_reserved_words_are_lower_case(index);
    assert forall|i: int| 0 <= i < word.len() implies is_word_byte(#[trigger] word[i]) && is_word_start(word[i]) by {
        assert('a' <= spelling[i] <= 'z');
    }
    lemma_starts_at_once(word);
    lemma_run_end_is(word, 0, word.len() as int, |b: u8| is_word_byte(b));
    assert(word.subrange(0, word.len() as int) =~= word);
    lemma_ascii_round_trip(spelling);
    lemma_reserved_index(index, spelling);
    lemma_reserved_tokens_are_plain(index);
}

/// A run in a buffer behind a prefix ends where it ends without the prefix,
/// moved on by the length of the prefix.
pub proof fn lemma_run_end_shifted(
    prefix: Seq<u8>,
    bytes: Seq<u8>,
    from: int,
    class: spec_fn(u8) -> bool,
)
    requires
        0 <= from <= bytes.len(),
    ensures
        run_end(prefix + bytes, prefix.len() + from, class) == prefix.len() + run_end(
            bytes,
            from,
            class,
        ),
    decreases bytes.len() - from,
{
    if from < bytes.len() {
        assert((prefix + bytes)[prefix.len() + from] == bytes[from]);
        if class(bytes[from]) {
            lemma_run_end_shifted(prefix, bytes, from + 1, class);
        }
    }
}

/// A comment in a buffer behind a prefix closes where it closes without the
/// prefix, moved on by the length of the prefix.
pub proof fn lemma_comment_end_shifted(prefix: Seq<u8>, bytes: Seq<u8>, from: int, depth: nat)
    requires
        0 <= from <= bytes.len(),
    ensures
        comment_end(prefix + bytes, prefix.len() + from, depth) == (match comment_end(
            bytes,
            from,
            depth,
        ) {
            Some(end) => Some(prefix.len() + end),
            None => None,
        }),
    decreases bytes.len() - from,
{
    if from < bytes.len() {
        assert((prefix + bytes)[prefix.len() + from] == bytes[from]);
        if bytes[from] == OPEN_BRACE {
            lemma_comment_end_shifted(prefix, bytes, from + 1, depth + 1);
        } else if bytes[from] == CLOSE_BRACE {
            if depth > 1 {
                lemma_comment_end_shifted(prefix, bytes, from + 1, (depth - 1) as nat);
            }
        } else {
            lemma_comment_end_shifted(prefix, bytes, from + 1, depth);
        }
    }
}

/// The start of the next token in a buffer behind a prefix is where it is
/// without the prefix, moved on by the length of the prefix.
pub proof fn lemma_token_start_shifted(prefix: Seq<u8>, bytes: Seq<u8>, from: int)
    requires
        0 <= from <= bytes.len(),
    ensures
        token_start(prefix + bytes, prefix.len() + from) == (match token_start(bytes, from) {
            Ok(at) => Ok::<int, int>(prefix.len() + at),
            Err(opening) => Err::<int, int>(prefix.len() + opening),
        }),
    decreases bytes.len() - from,
{
    let at: int = whitespace_end(bytes, from);
    lemma_run_end(bytes, from, |b: u8| is_whitespace(b));
    lemma_run_end_shifted(prefix, bytes, from, |b: u8| is_whitespace(b));
    if at < bytes.len() {
        assert((prefix + bytes)[prefix.len() + at] == bytes[at]);
        if bytes[at] == OPEN_BRACE {
            lemma_comment_end(bytes, at + 1, 1);
            lemma_comment_end_shifted(prefix, bytes, at + 1, 1);
            match comment_end(bytes, at + 1, 1) {
                Some(after) => {
                    lemma_token_start_shifted(prefix, bytes, after);
                },
                None => {},
            }
        }
    }
}

/// The inside of a string literal in a buffer behind a prefix is what it is
/// without the prefix, moved on by the length of the prefix.
pub proof fn lemma_string_body_shifted(prefix: Seq<u8>, bytes: Seq<u8>, from: int)
    requires
        0 <= from,
    ensures
        string_body(prefix + bytes, prefix.len() + from) == string_body(bytes, from).shifted(
            prefix.len() as int,
        ),
    decreases bytes.len() - from,
{
    if from < bytes.len() {
        assert((prefix + bytes)[prefix.len() + from] == bytes[from]);
        if bytes[from] == QUOTE {
        } else if bytes[from] >= 128 {
        } else if bytes[from] == BACKSLASH {
            if from + 1 < bytes.len() {
                assert((prefix + bytes)[prefix.len() + from + 1] == bytes[from + 1]);
                lemma_string_body_shifted(prefix, bytes, from + 2);
            }
        } else {
            lemma_string_body_shifted(prefix, bytes, from + 1);
        }
    }
}

/// The token at an offset of a buffer behind a prefix is the token at that
/// offset without the prefix, moved on by the length of the prefix.
pub proof fn lemma_token_at_shifted(prefix: Seq<u8>, bytes: Seq<u8>, at: int)
    requires
        0 <= at <= bytes.len(),
    ensures
        token_at(prefix + bytes, prefix.len() + at) == token_at(bytes, at).shifted(
            prefix.len() as int,
        ),
{
    let whole = prefix + bytes;
    let by: int = prefix.len() as int;
    if at < bytes.len() {
        assert(whole[by + at] == bytes[at]);
        if is_word_start(bytes[at]) {
            lemma_run_end(bytes, at, |b: u8| is_word_byte(b));
            lemma_run_end_shifted(prefix, bytes, at, |b: u8| is_word_byte(b));
            let end: int = word_end(bytes, at);
            assert(whole.subrange(by + at, by + end) =~= bytes.subrange(at, end));
        } else if is_digit(bytes[at]) {
            lemma_run_end(bytes, at, |b: u8| is_digit(b));
            lemma_run_end_shifted(prefix, bytes, at, |b: u8| is_digit(b));
            let end: int = run_end(bytes, at, |b: u8| is_digit(b));
            assert(whole.subrange(by + at, by + end) =~= bytes.subrange(at, end));
        } else if bytes[at] == QUOTE {
            lemma_string_body_shifted(prefix, bytes, at + 1);
        } else {
            if at + 1 < bytes.len() {
                assert(whole[by + at + 1] == bytes[at + 1]);
            }
            assert(byte_at(whole, by + at + 1) == byte_at(bytes, at + 1));
        }
    }
}

/// Scanning looks at the bytes from the cursor on and at nothing before
/// them: what is found behind a prefix is what is found without it, moved on
/// by the length of the prefix.
pub proof fn lemma_next_token_shifted(prefix: Seq<u8>, bytes: Seq<u8>, from: int)
    requires
        0 <= from <= bytes.len(),
    ensures
        next_token(prefix + bytes, prefix.len() + from) == next_token(bytes, from).shifted(
            prefix.len() as int,
        ),
{
    lemma_token_start_shifted(prefix, bytes, from);
    lemma_token_start_bounds(bytes, from);
    match token_start(bytes, from) {
        Ok(at) => {
            lemma_token_at_shifted(prefix, bytes, at);
        },
        Err(opening) => {},
    }
}

/// A string literal that closes within a buffer closes in the same way when
/// more bytes follow the buffer.
pub proof fn lemma_string_body_extended(bytes: Seq<u8>, suffix: Seq<u8>, from: int)
    requires
        0 <= from,
        string_body(bytes, from) is Closed,
    ensures
        string_body(bytes + suffix, from) == string_body(bytes, from),
    decreases bytes.len() - from,
{
    if from < bytes.len() {
        assert((bytes + suffix)[from] == bytes[from]);
        if bytes[from] == QUOTE {
        } else if bytes[from] >= 128 {
        } else if bytes[from] == BACKSLASH {
            if from + 1 < bytes.len() {
                assert((bytes + suffix)[from + 1] == bytes[from + 1]);
                let escaped: u8 = bytes[from + 1];
                if escaped == 'n' as u8 || escaped == 't' as u8 || escaped == QUOTE || escaped
                    == BACKSLASH {
                    lemma_string_body_extended(bytes, suffix, from + 2);
                }
            }
        } else {
            lemma_string_body_extended(bytes, suffix, from + 1);
        }
    }
}

/// A token that takes a whole buffer is still the token at its start when a
/// space and more bytes follow.
pub proof fn lemma_token_at_extended(bytes: Seq<u8>, suffix: Seq<u8>)
    requires
        bytes.len() > 0,
        token_at(bytes, 0) matches Outcome::Token { start, end, .. } && start == 0 && end
            == bytes.len(),
        suffix.len() > 0 ==> suffix[0] == SPACE,
    ensures
        token_at(bytes + suffix, 0) == token_at(bytes, 0),
{
    let whole = bytes + suffix;
    let length: int = bytes.len() as int;
    assert(whole[0] == bytes[0]);
    if suffix.len() > 0 {
        assert(whole[length] == SPACE);
    }
    if is_word_start(bytes[0]) {
        lemma_run_end(bytes, 0, |b: u8| is_word_byte(b));
        lemma_run_end_is(whole, 0, length, |b: u8| is_word_byte(b));
        assert(whole.subrange(0, length) =~= bytes.subrange(0, length));
    } else if is_digit(bytes[0]) {
        lemma_run_end(bytes, 0, |b: u8| is_digit(b));
        lemma_run_end_is(whole, 0, length, |b: u8| is_digit(b));
        assert(whole.subrange(0, length) =~= bytes.subrange(0, length));
    } else if bytes[0] == QUOTE {
        lemma_string_body_extended(bytes, suffix, 1);
    } else if length > 1 {
        assert(whole[1] == bytes[1]);
    }
}

/// Two tokens with one space between them scan as those two tokens, each at
/// its own place.
///
/// Let `first` be a buffer that one token takes from its first byte to its
/// last. In `first`, a space and `second`, that token is found at offset 0
/// as before; and from its end on, what is found is what `second` alone
/// gives, moved on behind `first` and the space. The place of the first
/// token is line 1 and column 0, and the place where `second` begins is one
/// column behind the end of `first`, whatever `second` holds.
pub proof fn lemma_tokens_apart_by_a_space(first: Seq<u8>, second: Seq<u8>)
    requires
        first.len() > 0,
        next_token(first, 0) matches Outcome::Token { start, end, .. } && start == 0 && end
            == first.len(),
    ensures
        ({
            let both = first + seq![SPACE] + second;
            let length: int = first.len() as int;
            &&& next_token(both, 0) == next_token(first, 0)
            &&& next_token(both, length) == next_token(second, 0).shifted(length + 1)
            &&& line_at(both, 0) == 1
            &&& column_at(both, 0) == 0
            &&& line_at(both, length + 1) == line_at(first, length)
            &&& column_at(both, length + 1) == column_at(first, length) + 1
        }),
{
    let length: int = first.len() as int;
    let suffix = seq![SPACE] + second;
    let head = first + seq![SPACE];
    let both = first + seq![SPACE] + second;
    assert(both =~= first + suffix);
    assert(both =~= head + second);
    lemma_token_start_bounds(first, 0);
    assert(token_start(first, 0) == Ok::<int, int>(0)) by {
        if token_start(first, 0) is Ok {
            let at: int = token_start(first, 0)->Ok_0;
            lemma_token_at_reports_its_start(first, at);
        }
    }
    lemma_token_start_at_significant_byte(first, 0);
    assert(both[0] == first[0]);
    lemma_starts_at_once(both);
    lemma_token_at_extended(first, suffix);

    assert(both[length] == SPACE);
    lemma_next_token_shifted(head, second, 0);
    assert(token_start(both, length) == token_start(both, length + 1)) by {
        lemma_token_start_after_whitespace(both, length);
        lemma_token_start_after_whitespace(both, length + 1);
    }

    lemma_position_of_prefix(both, first, length);
}

/// A token that is found at `at` starts at `at`.
proof fn lemma_token_at_reports_its_start(bytes: Seq<u8>, at: int)
    requires
        0 <= at <= bytes.len(),
    ensures
        token_at(bytes, at) matches Outcome::Token { start, .. } ==> start == at,
{
}

/// Where the next token starts at the cursor, the byte there is neither
/// whitespace nor the opening brace of a comment.
proof fn lemma_token_start_at_significant_byte(bytes: Seq<u8>, from: int)
    requires
        0 <= from < bytes.len(),
        token_start(bytes, from) == Ok::<int, int>(from),
    ensures
        !is_whitespace(bytes[from]),
        bytes[from] != OPEN_BRACE,
{
    lemma_run_end(bytes, from, |b: u8| is_whitespace(b));
    let at: int = whitespace_end(bytes, from);
    if at < bytes.len() && bytes[at] == OPEN_BRACE {
        lemma_comment_end(bytes, at + 1, 1);
        match comment_end(bytes, at + 1, 1) {
            Some(after) => {
                lemma_token_start_bounds(bytes, after);
            },
            None => {},
        }
    }
}

/// Whitespace under the cursor is passed over: what is found from a
/// whitespace byte on is what is found from the byte after it on.
pub proof fn lemma_whitespace_is_passed_over(bytes: Seq<u8>, from: int)
    requires
        0 <= from < bytes.len(),
        is_whitespace(bytes[from]),
    ensures
        next_token(bytes, from) == next_token(bytes, from + 1),
{
    lemma_token_start_after_whitespace(bytes, from);
    lemma_token_start_after_whitespace(bytes, from + 1);
}

/// A comment under the cursor is passed over, whatever it holds: what is
/// found from its opening brace on is what is found from behind its closing
/// brace on.
pub proof fn lemma_comment_is_passed_over(bytes: Seq<u8>, from: int)
    requires
        0 <= from < bytes.len(),
        bytes[from] == OPEN_BRACE,
        comment_end(bytes, from + 1, 1) is Some,
    ensures
        next_token(bytes, from) == next_token(bytes, comment_end(bytes, from + 1, 1)->Some_0),
{
}

/// The inside of a string literal closes behind the cursor and within the
/// buffer, and a byte that it cannot hold lies between the cursor and the
/// end of the buffer.
pub proof fn lemma_string_body_bounds(bytes: Seq<u8>, from: int)
    requires
        0 <= from,
    ensures
        (match string_body(bytes, from) {
            StringBody::Closed { end, .. } => from < end <= bytes.len(),
            StringBody::Invalid { at, byte, .. } => from <= at < bytes.len() && byte == bytes[at],
            StringBody::Unterminated => true,
        }),
    decreases bytes.len() - from,
{
    if from < bytes.len() {
        if bytes[from] == QUOTE {
        } else if bytes[from] >= 128 {
        } else if bytes[from] == BACKSLASH {
            if from + 1 < bytes.len() {
                lemma_string_body_bounds(bytes, from + 2);
            }
        } else {
            lemma_string_body_bounds(bytes, from + 1);
        }
    }
}

/// What is found lies between the cursor and the end of the buffer. A token
/// other than the end of the input takes at least one byte, so that a
/// caller who asks again and again comes to the end; and a failure is
/// reported at a byte of the buffer.
pub proof fn lemma_next_token_bounds(bytes: Seq<u8>, from: int)
    requires
        0 <= from <= bytes.len(),
    ensures
        (match next_token(bytes, from) {
            Outcome::Token { token, start, end } => {
                &&& from <= start <= end <= bytes.len()
                &&& token != TokenView::Plain(Token::Eof) ==> start < end
                &&& token == TokenView::Plain(Token::Eof) ==> start == bytes.len()
            },
            Outcome::Failure { at, .. } => from <= at < bytes.len(),
        }),
{
    lemma_token_start_bounds(bytes, from);
    match token_start(bytes, from) {
        Ok(at) => {
            if at < bytes.len() {
                if is_word_start(bytes[at]) {
                    lemma_run_end(bytes, at + 1, |b: u8| is_word_byte(b));
                    let text = ascii_text(bytes.subrange(at, word_end(bytes, at)));
                    if reserved_index(text) is Some {
                        lemma_reserved_words_spelled();
                    }
                } else if is_digit(bytes[at]) {
                    lemma_run_end(bytes, at + 1, |b: u8| is_digit(b));
                } else if bytes[at] == QUOTE {
                    lemma_string_body_bounds(bytes, at + 1);
                }
            }
        },
        Err(opening) => {},
    }
}

/// An identifier is a word of the source that is not reserved: one to
/// `MAX_ID_LENGTH` letters, digits and underscores, of which the first is no
/// digit, with the characters of the token for its bytes.
pub proof fn lemma_identifier_is_a_word(bytes: Seq<u8>, from: int)
    requires
        0 <= from <= bytes.len(),
        next_token(bytes, from) matches Outcome::Token { token, .. } && token is Id,
    ensures
        ({
            let start: int = next_token(bytes, from)->start;
            let end: int = next_token(bytes, from)->end;
            let text: Seq<char> = next_token(bytes, from)->token->Id_0;
            &&& 1 <= end - start <= MAX_ID_LENGTH
            &&& end <= bytes.len()
            &&& text == ascii_text(bytes.subrange(start, end))
            &&& is_word_start(bytes[start])
            &&& forall|i: int| start <= i < end ==> is_word_byte(#[trigger] bytes[i])
            &&& forall|k: int| 0 <= k < RESERVED_WORD_COUNT ==> reserved_words()[k].0 != text
        }),
{
    lemma_token_start_bounds(bytes, from);
    lemma_next_token_bounds(bytes, from);
    let at: int = token_start(bytes, from)->Ok_0;
    lemma_run_end(bytes, at, |b: u8| is_word_byte(b));
    lemma_reserved_words_spelled();
}

} // verus!
