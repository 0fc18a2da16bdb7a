//! The scanner: a cursor over a byte buffer that hands out one token per
//! call.
use vstd::prelude::*;
use vstd::slice::slice_subrange;
use crate::ascii::{
    ascii_text, is_digit, is_whitespace, is_word_byte, is_word_start, BACKSLASH, CLOSE_BRACE,
    NEWLINE, OPEN_BRACE, QUOTE,
};
use crate::error::{lemma_position_bounds, LexError, LexErrorKind, SourcePosition};
use crate::grammar::{
    byte_at, comment_end, decimal_value, digits_end, lemma_comment_end,
    lemma_decimal_value_of_prefix, lemma_run_end, lemma_string_body_after,
    lemma_token_start_after_whitespace, next_token, number_at, string_body, symbol, token_start,
    whitespace_end, word_at, word_end, Outcome, StringBody,
};
use crate::token::{
    create_token_from_reserved_words_index, find_reserved_word, lemma_reserved_tokens_are_plain,
    Token, TokenView, MAX_ID_LENGTH,
};

verus! {

/// `String::push` of the standard library appends one character to the end
/// of the string and leaves what was there before.
pub assume_specification[ String::push ](text: &mut String, ch: char)
    ensures
        final(text)@ == old(text)@.push(ch),
;

/// A scanner over a buffer of source bytes.
pub struct Lexer<'a> {
    /// The source.
    bytes: &'a [u8],
    /// The offset of the next byte to read.
    index: usize,
    /// The place of the next byte to read.
    cursor: SourcePosition,
    /// The place at which the token that was handed out last starts.
    position: SourcePosition,
}

/// A scanner as a mathematical value.
pub struct LexerView {
    /// The bytes of the source.
    pub source: Seq<u8>,
    /// How many of them were consumed.
    pub offset: int,
    /// The place at which the token that was handed out last starts.
    pub position: SourcePosition,
}

impl<'a> View for Lexer<'a> {
    type V = LexerView;

    closed spec fn view(&self) -> LexerView {
        LexerView { source: self.bytes@, offset: self.index as int, position: self.position }
    }
}

/// What a step of the scanner on `before` leaves behind when the grammar
/// says `outcome` of its cursor. A token is stored and the cursor moves to
/// its end. A failure comes back as the error, with its place in the source,
/// and changes nothing.
spec fn scanned(
    before: Lexer,
    after: Lexer,
    token_before: Token,
    token_after: Token,
    result: Result<(), LexError>,
    outcome: Outcome,
) -> bool {
    match outcome {
        Outcome::Token { token, start, end } => {
            &&& result is Ok
            &&& token_after@ == token
            &&& after.well_formed()
            &&& after@.source == before@.source
            &&& after@.offset == end
            &&& after@.position == before@.position
        },
        Outcome::Failure { kind, at, byte } => {
            &&& result matches Err(error)
            &&& error.kind == kind
            &&& error.byte == byte
            &&& error.position.is_at(before@.source, at)
            &&& after == before
            &&& token_after == token_before
        },
    }
}

/// The text that `bytes` stand for, one character per byte.
fn ascii_string(bytes: &[u8]) -> (text: String)
    ensures
        text@ == ascii_text(bytes@),
{
    let mut text = String::new();
    let mut i: usize = 0;
    while i < bytes.len()
        invariant
            i <= bytes.len(),
            text@ == ascii_text(bytes@.take(i as int)),
        decreases bytes.len() - i,
    {
        text.push(bytes[i] as char);
        i = i + 1;
        assert(text@ =~= ascii_text(bytes@.take(i as int)));
    }
    assert(bytes@.take(i as int) =~= bytes@);
    text
}

/// The operator or punctuation mark that `first` starts, given the byte
/// after it where there is one, with the number of bytes that it takes.
fn symbol_token(first: u8, second: Option<u8>) -> (found: Option<(Token, usize)>)
    ensures
        (match symbol(first, second) {
            Some((token, length)) => found == Some((token, length as usize)) && 1 <= length <= 2,
            None => found is None,
        }),
{
    let followed_by_equal = match second {
        Some(b) => b == '=' as u8,
        None => false,
    };
    let followed_by_greater = match second {
        Some(b) => b == '>' as u8,
        None => false,
    };
    match first as char {
        ']' => Some((Token::CloseBracket, 1)),
        ')' => Some((Token::CloseParenthesis, 1)),
        ',' => Some((Token::Comma, 1)),
        '/' => Some((Token::Divide, 1)),
        '.' => Some((Token::Concatenate, 1)),
        '=' => Some((Token::Equal, 1)),
        '[' => Some((Token::OpenBracket, 1)),
        '*' => Some((Token::Multiply, 1)),
        '+' => Some((Token::Plus, 1)),
        ';' => Some((Token::Semicolon, 1)),
        '-' => Some((Token::Minus, 1)),
        '(' => Some((Token::OpenParenthesis, 1)),
        ':' => if followed_by_equal {
            Some((Token::Gets, 2))
        } else {
            None
        },
        '>' => if followed_by_equal {
            Some((Token::GreaterEqual, 2))
        } else {
            Some((Token::GreaterThan, 1))
        },
        '<' => if followed_by_equal {
            Some((Token::LessEqual, 2))
        } else if followed_by_greater {
            Some((Token::NotEqual, 2))
        } else {
            Some((Token::LessThan, 1))
        },
        _ => None,
    }
}

impl<'a> Lexer<'a> {
    /// The cursor is inside the buffer or at its end, and the scanner knows
    /// the line and the column of the byte under it.
    pub closed spec fn well_formed(&self) -> bool {
        &&& self.index <= self.bytes@.len()
        &&& self.bytes@.len() < usize::MAX
        &&& self.cursor.is_at(self.bytes@, self.index as int)
    }

    /// A scanner at the start of `bytes`.
    pub fn new(bytes: &'a [u8]) -> (lexer: Self)
        requires
            bytes@.len() < usize::MAX,
        ensures
            lexer.well_formed(),
            lexer@.source == bytes@,
            lexer@.offset == 0,
            lexer@.position == (SourcePosition { line: 1, col: 0 }),
    {
        Lexer {
            bytes,
            index: 0,
            cursor: SourcePosition { line: 1, col: 0 },
            position: SourcePosition { line: 1, col: 0 },
        }
    }

    /// The place of the byte under the cursor. A newline is still on the
    /// line that it ends, and the byte after it is in column 1 of the next
    /// line.
    pub fn cursor(&self) -> (place: SourcePosition)
        requires
            self.well_formed(),
        ensures
            place.is_at(self@.source, self@.offset),
    {
        self.cursor
    }

    /// The place at which the token that was handed out last starts; before
    /// the first token, line 1 and column 0.
    pub fn position(&self) -> (position: SourcePosition)
        ensures
            position == self@.position,
    {
        self.position
    }

    /// Whether a byte is left to read.
    fn has_next_char(&self) -> (more: bool)
        requires
            self.well_formed(),
        ensures
            more == (self@.offset < self@.source.len()),
    {
        self.index < self.bytes.len()
    }

    /// The byte under the cursor, where one is left.
    fn peek(&self) -> (byte: Option<u8>)
        requires
            self.well_formed(),
        ensures
            byte == byte_at(self@.source, self@.offset),
    {
        if self.index < self.bytes.len() {
            Some(self.bytes[self.index])
        } else {
            None
        }
    }

    /// Consumes the byte under the cursor. At the end of the buffer nothing
    /// is left to consume and nothing changes.
    ///
    /// After a failed `get_token` this is the way past the bytes that do not
    /// scan.
    pub fn next_char(&mut self)
        requires
            old(self).well_formed(),
        ensures
            final(self).well_formed(),
            final(self)@.source == old(self)@.source,
            final(self)@.position == old(self)@.position,
            final(self)@.offset == (if old(self)@.offset < old(self)@.source.len() {
                old(self)@.offset + 1
            } else {
                old(self)@.offset
            }),
    {
        if self.index < self.bytes.len() {
            proof {
                lemma_position_bounds(self.bytes@, self.index as int);
            }
            if self.bytes[self.index] == NEWLINE {
                self.cursor = SourcePosition { line: self.cursor.line + 1, col: 1 };
            } else {
                self.cursor = SourcePosition { line: self.cursor.line, col: self.cursor.col + 1 };
            }
            self.index = self.index + 1;
        }
    }

    /// Consumes the whitespace under the cursor.
    fn skip_whitespace(&mut self)
        requires
            old(self).well_formed(),
        ensures
            final(self).well_formed(),
            final(self)@.source == old(self)@.source,
            final(self)@.position == old(self)@.position,
            final(self)@.offset == whitespace_end(old(self)@.source, old(self)@.offset),
    {
        while self.has_next_char() && is_whitespace(self.bytes[self.index])
            invariant
                self.well_formed(),
                self.bytes == old(self).bytes,
                self.position == old(self).position,
                whitespace_end(self.bytes@, self.index as int) == whitespace_end(
                    old(self).bytes@,
                    old(self).index as int,
                ),
            decreases self.bytes@.len() - self.index,
        {
            self.next_char();
        }
    }

    /// Consumes a comment up to its closing brace. The cursor stands after
    /// the opening brace.
    fn skip_comment(&mut self) -> (result: Result<(), LexError>)
        requires
            old(self).well_formed(),
            old(self)@.offset >= 1,
            old(self)@.source[old(self)@.offset - 1] == OPEN_BRACE,
        ensures
            (match comment_end(old(self)@.source, old(self)@.offset, 1) {
                Some(end) => {
                    &&& result is Ok
                    &&& final(self).well_formed()
                    &&& final(self)@.source == old(self)@.source
                    &&& final(self)@.position == old(self)@.position
                    &&& final(self)@.offset == end
                },
                None => {
                    &&& result matches Err(error)
                    &&& error.kind == LexErrorKind::UnterminatedComment
                    &&& error.byte == None::<u8>
                    &&& error.position.is_at(old(self)@.source, old(self)@.offset - 1)
                    &&& *final(self) == *old(self)
                },
            }),
    {
        let entry_index: usize = self.index;
        let entry: SourcePosition = self.cursor;
        proof {
            lemma_position_bounds(self.bytes@, self.index as int);
        }
        let opening = SourcePosition { line: entry.line, col: entry.col - 1 };
        let mut depth: usize = 1;
        loop
            invariant
                self.well_formed(),
                self.bytes == old(self).bytes,
                self.position == old(self).position,
                entry_index == old(self).index,
                entry == old(self).cursor,
                old(self).well_formed(),
                opening.is_at(self.bytes@, entry_index - 1),
                entry_index <= self.index,
                1 <= depth <= self.index - entry_index + 1,
                comment_end(self.bytes@, self.index as int, depth as nat) == comment_end(
                    self.bytes@,
                    entry_index as int,
                    1,
                ),
            decreases self.bytes@.len() - self.index,
        {
            match self.peek() {
                None => {
                    self.index = entry_index;
                    self.cursor = entry;
                    return Err(
                        LexError {
                            kind: LexErrorKind::UnterminatedComment,
                            position: opening,
                            byte: None,
                        },
                    );
                },
                Some(byte) => {
                    self.next_char();
                    if byte == OPEN_BRACE {
                        depth = depth + 1;
                    } else if byte == CLOSE_BRACE {
                        depth = depth - 1;
                        if depth == 0 {
                            return Ok(());
                        }
                    }
                },
            }
        }
    }

    /// Reads an integer literal. The cursor stands on its first digit.
    fn process_number(&mut self, token: &mut Token) -> (result: Result<(), LexError>)
        requires
            old(self).well_formed(),
            old(self)@.offset < old(self)@.source.len(),
            is_digit(old(self)@.source[old(self)@.offset]),
        ensures
            scanned(
                *old(self),
                *final(self),
                *old(token),
                *final(token),
                result,
                number_at(old(self)@.source, old(self)@.offset),
            ),
    {
        let entry_index: usize = self.index;
        let entry: SourcePosition = self.cursor;
        let mut value: i32 = 0;
        while self.has_next_char() && is_digit(self.bytes[self.index])
            invariant
                self.well_formed(),
                self.bytes == old(self).bytes,
                self.position == old(self).position,
                entry_index == old(self).index,
                entry == old(self).cursor,
                old(self).well_formed(),
                *token == *old(token),
                entry_index <= self.index,
                digits_end(self.bytes@, self.index as int) == digits_end(
                    self.bytes@,
                    entry_index as int,
                ),
                value == decimal_value(self.bytes@.subrange(entry_index as int, self.index as int)),
            decreases self.bytes@.len() - self.index,
        {
            let digit: i32 = (self.bytes[self.index] - '0' as u8) as i32;
            let ghost read = self.bytes@.subrange(entry_index as int, self.index + 1);
            assert(read.drop_last() =~= self.bytes@.subrange(
                entry_index as int,
                self.index as int,
            ));
            assert(decimal_value(read) == value * 10 + digit);
            if value <= (i32::MAX - digit) / 10 {
                value = value * 10 + digit;
                self.next_char();
            } else {
                proof {
                    let end: int = digits_end(self.bytes@, entry_index as int);
                    lemma_run_end(self.bytes@, self.index + 1, |b: u8| is_digit(b));
                    lemma_run_end(self.bytes@, entry_index as int, |b: u8| is_digit(b));
                    let run = self.bytes@.subrange(entry_index as int, end);
                    lemma_decimal_value_of_prefix(run, self.index + 1 - entry_index);
                    assert(run.take(self.index + 1 - entry_index) =~= read);
                }
                self.index = entry_index;
                self.cursor = entry;
                return Err(
                    LexError { kind: LexErrorKind::NumberTooLarge, position: entry, byte: None },
                );
            }
        }
        *token = Token::Number(value);
        Ok(())
    }

    /// Reads a word: a reserved word or an identifier. The cursor stands on
    /// its first byte.
    fn process_word(&mut self, token: &mut Token) -> (result: Result<(), LexError>)
        requires
            old(self).well_formed(),
            old(self)@.offset < old(self)@.source.len(),
            is_word_start(old(self)@.source[old(self)@.offset]),
        ensures
            scanned(
                *old(self),
                *final(self),
                *old(token),
                *final(token),
                result,
                word_at(old(self)@.source, old(self)@.offset),
            ),
    {
        let entry_index: usize = self.index;
        let entry: SourcePosition = self.cursor;
        while self.has_next_char() && is_word_byte(self.bytes[self.index])
            invariant
                self.well_formed(),
                self.bytes == old(self).bytes,
                self.position == old(self).position,
                entry_index == old(self).index,
                entry == old(self).cursor,
                old(self).well_formed(),
                *token == *old(token),
                entry_index <= self.index <= entry_index + MAX_ID_LENGTH,
                word_end(self.bytes@, self.index as int) == word_end(
                    self.bytes@,
                    entry_index as int,
                ),
            decreases self.bytes@.len() - self.index,
        {
            if self.index - entry_index == MAX_ID_LENGTH {
                proof {
                    lemma_run_end(self.bytes@, self.index + 1, |b: u8| is_word_byte(b));
                }
                self.index = entry_index;
                self.cursor = entry;
                return Err(
                    LexError { kind: LexErrorKind::IdentifierTooLong, position: entry, byte: None },
                );
            }
            self.next_char();
        }
        let lexeme = slice_subrange(self.bytes, entry_index, self.index);
        match find_reserved_word(lexeme) {
            Some(index) => {
                proof {
                    lemma_reserved_tokens_are_plain(index as int);
                }
                *token = create_token_from_reserved_words_index(index);
            },
            None => {
                *token = Token::Id(ascii_string(lexeme));
            },
        }
        Ok(())
    }

    /// Reads the inside of a string literal and its closing quote. The
    /// cursor stands after the opening quote.
    fn process_string(&mut self, token: &mut Token) -> (result: Result<(), LexError>)
        requires
            old(self).well_formed(),
            old(self)@.offset >= 1,
            old(self)@.source[old(self)@.offset - 1] == QUOTE,
        ensures
            (match string_body(old(self)@.source, old(self)@.offset) {
                StringBody::Closed { text, end } => {
                    &&& result is Ok
                    &&& final(token)@ == TokenView::StringLiteral(text)
                    &&& final(self).well_formed()
                    &&& final(self)@.source == old(self)@.source
                    &&& final(self)@.position == old(self)@.position
                    &&& final(self)@.offset == end
                },
                StringBody::Invalid { kind, at, byte } => {
                    &&& result matches Err(error)
                    &&& error.kind == kind
                    &&& error.byte == Some(byte)
                    &&& error.position.is_at(old(self)@.source, at)
                    &&& *final(self) == *old(self)
                    &&& *final(token) == *old(token)
                },
                StringBody::Unterminated => {
                    &&& result matches Err(error)
                    &&& error.kind == LexErrorKind::UnterminatedString
                    &&& error.byte == None::<u8>
                    &&& error.position.is_at(old(self)@.source, old(self)@.offset - 1)
                    &&& *final(self) == *old(self)
                    &&& *final(token) == *old(token)
                },
            }),
    {
        let entry_index: usize = self.index;
        let entry: SourcePosition = self.cursor;
        proof {
            lemma_position_bounds(self.bytes@, self.index as int);
        }
        let opening = SourcePosition { line: entry.line, col: entry.col - 1 };
        let mut text = String::new();
        proof {
            lemma_string_body_after(string_body(self.bytes@, self.index as int), text@, text@);
        }
        loop
            invariant
                self.well_formed(),
                self.bytes == old(self).bytes,
                self.position == old(self).position,
                entry_index == old(self).index,
                entry == old(self).cursor,
                old(self).well_formed(),
                *token == *old(token),
                opening.is_at(self.bytes@, entry_index - 1),
                entry_index <= self.index,
                string_body(self.bytes@, entry_index as int) == string_body(
                    self.bytes@,
                    self.index as int,
                ).after(text@),
            decreases self.bytes@.len() - self.index,
        {
            let ghost read = text@;
            match self.peek() {
                None => {
                    self.index = entry_index;
                    self.cursor = entry;
                    return Err(
                        LexError {
                            kind: LexErrorKind::UnterminatedString,
                            position: opening,
                            byte: None,
                        },
                    );
                },
                Some(byte) => {
                    if byte == QUOTE {
                        self.next_char();
                        assert(read + Seq::<char>::empty() =~= read);
                        *token = Token::StringLiteral(text);
                        return Ok(());
                    } else if byte >= 128 {
                        let error = LexError {
                            kind: LexErrorKind::NonPrintableCharacter,
                            position: self.cursor,
                            byte: Some(byte),
                        };
                        self.index = entry_index;
                        self.cursor = entry;
                        return Err(error);
                    } else if byte == BACKSLASH {
                        self.next_char();
                        match self.peek() {
                            None => {
                                self.index = entry_index;
                                self.cursor = entry;
                                assert(self.bytes == old(self).bytes);
                                return Err(
                                    LexError {
                                        kind: LexErrorKind::UnterminatedString,
                                        position: opening,
                                        byte: None,
                                    },
                                );
                            },
                            Some(escaped) => {
                                if escaped == 'n' as u8 || escaped == 't' as u8 || escaped
                                    == QUOTE {
                                    text.push(escaped as char);
                                    proof {
                                        lemma_string_body_after(
                                            string_body(self.bytes@, self.index + 1),
                                            read,
                                            seq![escaped as char],
                                        );
                                        assert(read + seq![escaped as char] =~= text@);
                                    }
                                } else if escaped == BACKSLASH {
                                    text.push('\\');
                                    text.push('\\');
                                    proof {
                                        lemma_string_body_after(
                                            string_body(self.bytes@, self.index + 1),
                                            read,
                                            seq!['\\', '\\'],
                                        );
                                        assert(read + seq!['\\', '\\'] =~= text@);
                                    }
                                } else {
                                    let error = LexError {
                                        kind: LexErrorKind::IllegalEscapeCode,
                                        position: self.cursor,
                                        byte: Some(escaped),
                                    };
                                    self.index = entry_index;
                                    self.cursor = entry;
                                    assert(self.bytes == old(self).bytes);
                                    return Err(error);
                                }
                                self.next_char();
                            },
                        }
                    } else {
                        text.push(byte as char);
                        proof {
                            lemma_string_body_after(
                                string_body(self.bytes@, self.index + 1),
                                read,
                                seq![byte as char],
                            );
                            assert(read + seq![byte as char] =~= text@);
                        }
                        self.next_char();
                    }
                },
            }
        }
    }

    /// Reads the next token into `token`.
    ///
    /// Whitespace and comments before the token are passed over. The token
    /// is the one that the grammar finds from the cursor on; the cursor
    /// moves to its end, and `position` then gives the place of its first
    /// byte. At the end of the input the token is `Eof`, as often as it is
    /// asked for.
    ///
    /// Where the grammar finds no token, the error says why and where, and
    /// neither the scanner nor `token` changes.
    pub fn get_token(&mut self, token: &mut Token) -> (result: Result<(), LexError>)
        requires
            old(self).well_formed(),
        ensures
            final(self).well_formed(),
            final(self)@.source == old(self)@.source,
            (match next_token(old(self)@.source, old(self)@.offset) {
                Outcome::Token { token: found, start, end } => {
                    &&& result is Ok
                    &&& final(token)@ == found
                    &&& final(self)@.offset == end
                    &&& final(self)@.position.is_at(old(self)@.source, start)
                },
                Outcome::Failure { kind, at, byte } => {
                    &&& result matches Err(error)
                    &&& error.kind == kind
                    &&& error.byte == byte
                    &&& error.position.is_at(old(self)@.source, at)
                    &&& *final(self) == *old(self)
                    &&& *final(token) == *old(token)
                },
            }),
    {
        let entry_index: usize = self.index;
        let entry: SourcePosition = self.cursor;
        let entry_position: SourcePosition = self.position;
        self.skip_whitespace();
        proof {
            lemma_token_start_after_whitespace(self.bytes@, entry_index as int);
        }
        while self.has_next_char() && self.bytes[self.index] == OPEN_BRACE
            invariant
                self.well_formed(),
                self.bytes == old(self).bytes,
                self.position == old(self).position,
                entry_index == old(self).index,
                entry == old(self).cursor,
                entry_position == old(self).position,
                old(self).well_formed(),
                *token == *old(token),
                whitespace_end(self.bytes@, self.index as int) == self.index,
                token_start(self.bytes@, self.index as int) == token_start(
                    self.bytes@,
                    entry_index as int,
                ),
            decreases self.bytes@.len() - self.index,
        {
            let ghost opening: int = self.index as int;
            self.next_char();
            match self.skip_comment() {
                Ok(()) => {},
                Err(error) => {
                    self.index = entry_index;
                    self.cursor = entry;
                    assert(self.bytes == old(self).bytes);
                    return Err(error);
                },
            }
            proof {
                lemma_comment_end(self.bytes@, opening + 1, 1);
                lemma_token_start_after_whitespace(self.bytes@, self.index as int);
            }
            self.skip_whitespace();
        }
        self.position = self.cursor;
        let outcome = match self.peek() {
            None => {
                *token = Token::Eof;
                Ok(())
            },
            Some(byte) => {
                if is_word_start(byte) {
                    self.process_word(token)
                } else if is_digit(byte) {
                    self.process_number(token)
                } else if byte == QUOTE {
                    self.next_char();
                    self.process_string(token)
                } else {
                    let second = if self.index + 1 < self.bytes.len() {
                        Some(self.bytes[self.index + 1])
                    } else {
                        None
                    };
                    match symbol_token(byte, second) {
                        Some((found, length)) => {
                            self.next_char();
                            if length == 2 {
                                self.next_char();
                            }
                            *token = found;
                            Ok(())
                        },
                        None => Err(
                            LexError {
                                kind: LexErrorKind::IllegalCharacter,
                                position: self.cursor,
                                byte: Some(byte),
                            },
                        ),
                    }
                }
            },
        };
        if outcome.is_err() {
            self.index = entry_index;
            self.cursor = entry;
            self.position = entry_position;
            assert(self.bytes == old(self).bytes);
        }
        outcome
    }
}

} // verus!
