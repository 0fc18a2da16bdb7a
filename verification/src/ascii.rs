//! Classes of bytes that the lexical grammar tells apart.
use vstd::prelude::*;

verus! {

pub const TAB: u8 = 9;

pub const NEWLINE: u8 = 10;

pub const CARRIAGE_RETURN: u8 = 13;

pub const SPACE: u8 = 32;

pub const QUOTE: u8 = 34;

pub const BACKSLASH: u8 = 92;

pub const UNDERSCORE: u8 = 95;

pub const OPEN_BRACE: u8 = 123;

pub const CLOSE_BRACE: u8 = 125;

/// Space, tab, newline and carriage return separate tokens.
pub open spec fn spec_is_whitespace(b: u8) -> bool {
    b == SPACE || b == TAB || b == NEWLINE || b == CARRIAGE_RETURN
}

#[verifier::when_used_as_spec(spec_is_whitespace)]
pub fn is_whitespace(b: u8) -> (r: bool)
    ensures
        r == spec_is_whitespace(b),
{
    b == SPACE || b == TAB || b == NEWLINE || b == CARRIAGE_RETURN
}

/// The letters `a` to `z` and `A` to `Z`.
pub open spec fn spec_is_letter(b: u8) -> bool {
    ('a' as u8 <= b && b <= 'z' as u8) || ('A' as u8 <= b && b <= 'Z' as u8)
}

#[verifier::when_used_as_spec(spec_is_letter)]
pub fn is_letter(b: u8) -> (r: bool)
    ensures
        r == spec_is_letter(b),
{
    ('a' as u8 <= b && b <= 'z' as u8) || ('A' as u8 <= b && b <= 'Z' as u8)
}

/// The digits `0` to `9`.
pub open spec fn spec_is_digit(b: u8) -> bool {
    '0' as u8 <= b && b <= '9' as u8
}

#[verifier::when_used_as_spec(spec_is_digit)]
pub fn is_digit(b: u8) -> (r: bool)
    ensures
        r == spec_is_digit(b),
{
    '0' as u8 <= b && b <= '9' as u8
}

/// A word begins with a letter or an underscore.
pub open spec fn spec_is_word_start(b: u8) -> bool {
    is_letter(b) || b == UNDERSCORE
}

#[verifier::when_used_as_spec(spec_is_word_start)]
pub fn is_word_start(b: u8) -> (r: bool)
    ensures
        r == spec_is_word_start(b),
{
    is_letter(b) || b == UNDERSCORE
}

/// A word goes on with letters, digits and underscores.
pub open spec fn spec_is_word_byte(b: u8) -> bool {
    is_letter(b) || is_digit(b) || b == UNDERSCORE
}

#[verifier::when_used_as_spec(spec_is_word_byte)]
pub fn is_word_byte(b: u8) -> (r: bool)
    ensures
        r == spec_is_word_byte(b),
{
    is_letter(b) || is_digit(b) || b == UNDERSCORE
}

/// The characters that a run of bytes stands for, one per byte.
pub open spec fn ascii_text(bytes: Seq<u8>) -> Seq<char> {
    Seq::new(bytes.len(), |i: int| bytes[i] as char)
}

/// The bytes that a run of characters is written with, one per character.
/// Meant for characters below 128.
pub open spec fn ascii_bytes(text: Seq<char>) -> Seq<u8> {
    Seq::new(text.len(), |i: int| text[i] as u8)
}

/// Reading the bytes of an ASCII text gives the text back.
pub proof fn lemma_ascii_round_trip(text: Seq<char>)
    requires
        forall|i: int| 0 <= i < text.len() ==> '\0' <= #[trigger] text[i] <= '\u{ff}',
    ensures
        ascii_text(ascii_bytes(text)) == text,
{
    assert forall|i: int| 0 <= i < text.len() implies ascii_text(ascii_bytes(text))[i]
        == text[i] by {
        let c: char = text[i];
        assert(ascii_bytes(text)[i] == c as u8);
        assert((c as u8) as char == c);
    }
    assert(ascii_text(ascii_bytes(text)) =~= text);
}

/// Writing the text of a run of bytes gives the bytes back.
pub proof fn lemma_ascii_bytes_of_text(bytes: Seq<u8>)
    ensures
        ascii_bytes(ascii_text(bytes)) == bytes,
{
    assert forall|i: int| 0 <= i < bytes.len() implies ascii_bytes(ascii_text(bytes))[i]
        == bytes[i] by {
        assert(ascii_text(bytes)[i] == bytes[i] as char);
        assert((bytes[i] as char) as u8 == bytes[i]);
    }
    assert(ascii_bytes(ascii_text(bytes)) =~= bytes);
}

} // verus!
