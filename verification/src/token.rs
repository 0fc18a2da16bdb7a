//! Tokens, and the table of reserved words.
use vstd::prelude::*;
use vstd::string::{is_ascii_spec_bytes, StringSliceAdditionalSpecFns};
use crate::ascii::{ascii_bytes, ascii_text, lemma_ascii_bytes_of_text, lemma_ascii_round_trip};

verus! {

/// What the lexer hands out.
#[derive(Debug, PartialEq)]
pub enum Token {
    /// The end of the input.
    Eof,
    /// A word that is not reserved.
    Id(String),
    /// An integer literal.
    Number(i32),
    /// A string literal, with its escapes resolved.
    StringLiteral(String),
    // reserved words
    Array,
    Begin,
    Boolean,
    Call,
    Do,
    Else,
    Elsif,
    End,
    False,
    Function,
    Get,
    If,
    Integer,
    Leave,
    Not,
    Put,
    Relax,
    Source,
    Then,
    To,
    True,
    While,
    // relational operators
    Equal,
    GreaterEqual,
    GreaterThan,
    LessEqual,
    LessThan,
    NotEqual,
    // additive operators
    Minus,
    Or,
    Plus,
    // multiplicative operators
    And,
    Divide,
    Multiply,
    Remainder,
    // brackets and punctuation
    CloseBracket,
    CloseParenthesis,
    Comma,
    Concatenate,
    Gets,
    OpenBracket,
    OpenParenthesis,
    Semicolon,
}

/// A token as a mathematical value: the payload of an identifier or a string
/// literal is the sequence of its characters.
pub enum TokenView {
    Id(Seq<char>),
    Number(i32),
    StringLiteral(Seq<char>),
    /// A token without payload: a reserved word, an operator, punctuation or
    /// the end of the input.
    Plain(Token),
}

impl View for Token {
    type V = TokenView;

    open spec fn view(&self) -> TokenView {
        match *self {
            Token::Id(text) => TokenView::Id(text@),
            Token::Number(value) => TokenView::Number(value),
            Token::StringLiteral(text) => TokenView::StringLiteral(text@),
            _ => TokenView::Plain(*self),
        }
    }
}

/// The greatest number of bytes in a word.
pub const MAX_ID_LENGTH: usize = 32;

/// The number of reserved words.
pub const RESERVED_WORD_COUNT: usize = 25;

/// The reserved words with their tokens, in the order of their spellings.
pub open spec fn reserved_words() -> Seq<(Seq<char>, Token)> {
    seq![
        ("and"@, Token::And),
        ("array"@, Token::Array),
        ("begin"@, Token::Begin),
        ("boolean"@, Token::Boolean),
        ("call"@, Token::Call),
        ("do"@, Token::Do),
        ("else"@, Token::Else),
        ("elsif"@, Token::Elsif),
        ("end"@, Token::End),
        ("false"@, Token::False),
        ("function"@, Token::Function),
        ("get"@, Token::Get),
        ("if"@, Token::If),
        ("integer"@, Token::Integer),
        ("leave"@, Token::Leave),
        ("not"@, Token::Not),
        ("or"@, Token::Or),
        ("put"@, Token::Put),
        ("relax"@, Token::Relax),
        ("rem"@, Token::Remainder),
        ("source"@, Token::Source),
        ("then"@, Token::Then),
        ("to"@, Token::To),
        ("true"@, Token::True),
        ("while"@, Token::While),
    ]
}

/// The token of the reserved word at `index` of the table.
pub fn create_token_from_reserved_words_index(index: usize) -> (token: Token)
    requires
        index < RESERVED_WORD_COUNT,
    ensures
        token == reserved_words()[index as int].1,
{
    match index {
        0 => Token::And,
        1 => Token::Array,
        2 => Token::Begin,
        3 => Token::Boolean,
        4 => Token::Call,
        5 => Token::Do,
        6 => Token::Else,
        7 => Token::Elsif,
        8 => Token::End,
        9 => Token::False,
        10 => Token::Function,
        11 => Token::Get,
        12 => Token::If,
        13 => Token::Integer,
        14 => Token::Leave,
        15 => Token::Not,
        16 => Token::Or,
        17 => Token::Put,
        18 => Token::Relax,
        19 => Token::Remainder,
        20 => Token::Source,
        21 => Token::Then,
        22 => Token::To,
        23 => Token::True,
        _ => Token::While,
    }
}

/// The spelling of the reserved word at `index` of the table.
pub fn reserved_word_spelling(index: usize) -> (spelling: &'static str)
    requires
        index < RESERVED_WORD_COUNT,
    ensures
        spelling@ == reserved_words()[index as int].0,
{
    match index {
        0 => "and",
        1 => "array",
        2 => "begin",
        3 => "boolean",
        4 => "call",
        5 => "do",
        6 => "else",
        7 => "elsif",
        8 => "end",
        9 => "false",
        10 => "function",
        11 => "get",
        12 => "if",
        13 => "integer",
        14 => "leave",
        15 => "not",
        16 => "or",
        17 => "put",
        18 => "relax",
        19 => "rem",
        20 => "source",
        21 => "then",
        22 => "to",
        23 => "true",
        _ => "while",
    }
}

/// The bytes that the reserved word at `index` of the table is written with.
pub open spec fn reserved_bytes(index: int) -> Seq<u8> {
    ascii_bytes(reserved_words()[index].0)
}

/// The place of `text` in the table of reserved words, if it is one.
pub open spec fn reserved_index(text: Seq<char>) -> Option<int> {
    if exists|i: int| 0 <= i < reserved_words().len() && reserved_words()[i].0 == text {
        Some(choose|i: int| 0 <= i < reserved_words().len() && reserved_words()[i].0 == text)
    } else {
        None
    }
}

/// `a` and `b` agree on their first `k` bytes, and there `a` ends or has the
/// smaller byte.
pub open spec fn precedes_at(a: Seq<u8>, b: Seq<u8>, k: int) -> bool {
    &&& 0 <= k <= a.len()
    &&& k < b.len()
    &&& forall|j: int| 0 <= j < k ==> a[j] == b[j]
    &&& k < a.len() ==> a[k] < b[k]
}

/// `a` comes before `b` in the lexicographic order of their bytes.
pub open spec fn lex_less(a: Seq<u8>, b: Seq<u8>) -> bool {
    exists|k: int| precedes_at(a, b, k)
}

/// What comes before something that comes before a third comes before the
/// third.
pub proof fn lemma_lex_less_transitive(a: Seq<u8>, b: Seq<u8>, c: Seq<u8>)
    requires
        lex_less(a, b),
        lex_less(b, c),
    ensures
        lex_less(a, c),
{
    let k1: int = choose|k: int| precedes_at(a, b, k);
    let k2: int = choose|k: int| precedes_at(b, c, k);
    if k1 <= k2 {
        assert(precedes_at(a, c, k1));
    } else {
        assert(precedes_at(a, c, k2));
    }
}

/// Nothing comes before itself.
pub proof fn lemma_lex_less_distinct(a: Seq<u8>, b: Seq<u8>)
    requires
        lex_less(a, b),
    ensures
        a != b,
{
}

/// The table, letter by letter.
pub proof fn lemma_reserved_words_spelled()
    ensures
        reserved_words().len() == RESERVED_WORD_COUNT,
        reserved_words()[0].0 == seq!['a', 'n', 'd'],
        reserved_words()[1].0 == seq!['a', 'r', 'r', 'a', 'y'],
        reserved_words()[2].0 == seq!['b', 'e', 'g', 'i', 'n'],
        reserved_words()[3].0 == seq!['b', 'o', 'o', 'l', 'e', 'a', 'n'],
        reserved_words()[4].0 == seq!['c', 'a', 'l', 'l'],
        reserved_words()[5].0 == seq!['d', 'o'],
        reserved_words()[6].0 == seq!['e', 'l', 's', 'e'],
        reserved_words()[7].0 == seq!['e', 'l', 's', 'i', 'f'],
        reserved_words()[8].0 == seq!['e', 'n', 'd'],
        reserved_words()[9].0 == seq!['f', 'a', 'l', 's', 'e'],
        reserved_words()[10].0 == seq!['f', 'u', 'n', 'c', 't', 'i', 'o', 'n'],
        reserved_words()[11].0 == seq!['g', 'e', 't'],
        reserved_words()[12].0 == seq!['i', 'f'],
        reserved_words()[13].0 == seq!['i', 'n', 't', 'e', 'g', 'e', 'r'],
        reserved_words()[14].0 == seq!['l', 'e', 'a', 'v', 'e'],
        reserved_words()[15].0 == seq!['n', 'o', 't'],
        reserved_words()[16].0 == seq!['o', 'r'],
        reserved_words()[17].0 == seq!['p', 'u', 't'],
        reserved_words()[18].0 == seq!['r', 'e', 'l', 'a', 'x'],
        reserved_words()[19].0 == seq!['r', 'e', 'm'],
        reserved_words()[20].0 == seq!['s', 'o', 'u', 'r', 'c', 'e'],
        reserved_words()[21].0 == seq!['t', 'h', 'e', 'n'],
        reserved_words()[22].0 == seq!['t', 'o'],
        reserved_words()[23].0 == seq!['t', 'r', 'u', 'e'],
        reserved_words()[24].0 == seq!['w', 'h', 'i', 'l', 'e'],
{
    reveal_strlit("and");
    reveal_strlit("array");
    reveal_strlit("begin");
    reveal_strlit("boolean");
    reveal_strlit("call");
    reveal_strlit("do");
    reveal_strlit("else");
    reveal_strlit("elsif");
    reveal_strlit("end");
    reveal_strlit("false");
    reveal_strlit("function");
    reveal_strlit("get");
    reveal_strlit("if");
    reveal_strlit("integer");
    reveal_strlit("leave");
    reveal_strlit("not");
    reveal_strlit("or");
    reveal_strlit("put");
    reveal_strlit("relax");
    reveal_strlit("rem");
    reveal_strlit("source");
    reveal_strlit("then");
    reveal_strlit("to");
    reveal_strlit("true");
    reveal_strlit("while");
}

/// Every reserved word is two to eight lower-case letters.
pub proof fn lemma_reserved_words_are_lower_case(index: int)
    requires
        0 <= index < RESERVED_WORD_COUNT,
    ensures
        2 <= reserved_words()[index].0.len() <= 8,
        forall|k: int|
            0 <= k < reserved_words()[index].0.len() ==> 'a' <= #[trigger] reserved_words()[index].0[k]
                <= 'z',
{
    lemma_reserved_words_spelled();
}

/// Each reserved word comes before the next one of the table.
proof fn lemma_reserved_words_ascend(index: int)
    requires
        0 <= index < RESERVED_WORD_COUNT - 1,
    ensures
        lex_less(reserved_bytes(index), reserved_bytes(index + 1)),
{
    lemma_reserved_words_spelled();
    let a = reserved_bytes(index);
    let b = reserved_bytes(index + 1);
    let k: int = if index == 6 {
        3
    } else if index == 18 {
        2
    } else if index == 0 || index == 2 || index == 7 || index == 9 || index == 12 || index == 21
        || index == 22 {
        1
    } else {
        0
    };
    assert(precedes_at(a, b, k));
}

/// The table is sorted: of two reserved words, the one that stands first in
/// the table comes first in the lexicographic order of their bytes.
pub proof fn lemma_reserved_words_sorted(i: int, j: int)
    requires
        0 <= i < j < RESERVED_WORD_COUNT,
    ensures
        lex_less(reserved_bytes(i), reserved_bytes(j)),
    decreases j - i,
{
    if j == i + 1 {
        lemma_reserved_words_ascend(i);
    } else {
        lemma_reserved_words_sorted(i, j - 1);
        lemma_reserved_words_ascend(j - 1);
        lemma_lex_less_transitive(reserved_bytes(i), reserved_bytes(j - 1), reserved_bytes(j));
    }
}

/// A text is a reserved word exactly where it stands in the table, and it
/// stands there once.
pub proof fn lemma_reserved_index(index: int, text: Seq<char>)
    requires
        0 <= index < RESERVED_WORD_COUNT,
        reserved_words()[index].0 == text,
    ensures
        reserved_index(text) == Some(index),
{
    lemma_reserved_words_spelled();
    let found: int = choose|i: int| 0 <= i < reserved_words().len() && reserved_words()[i].0 == text;
    if found < index {
        lemma_reserved_words_sorted(found, index);
    } else if index < found {
        lemma_reserved_words_sorted(index, found);
    }
}

/// How one run of bytes stands to another in the lexicographic order.
enum Comparison {
    Less,
    Equal,
    Greater,
}

fn compare_bytes(a: &[u8], b: &[u8]) -> (r: Comparison)
    ensures
        (match r {
            Comparison::Less => lex_less(a@, b@),
            Comparison::Equal => a@ == b@,
            Comparison::Greater => lex_less(b@, a@),
        }),
{
    let mut k: usize = 0;
    while k < a.len() && k < b.len()
        invariant
            k <= a.len(),
            k <= b.len(),
            forall|j: int| 0 <= j < k ==> a@[j] == b@[j],
        decreases a.len() - k,
    {
        if a[k] < b[k] {
            assert(precedes_at(a@, b@, k as int));
            return Comparison::Less;
        }
        if a[k] > b[k] {
            assert(precedes_at(b@, a@, k as int));
            return Comparison::Greater;
        }
        k = k + 1;
    }
    if a.len() < b.len() {
        assert(precedes_at(a@, b@, k as int));
        Comparison::Less
    } else if a.len() > b.len() {
        assert(precedes_at(b@, a@, k as int));
        Comparison::Greater
    } else {
        assert(a@ =~= b@);
        Comparison::Equal
    }
}

/// The bytes of the reserved word at `index` of the table.
fn reserved_word_bytes(index: usize) -> (bytes: &'static [u8])
    requires
        index < RESERVED_WORD_COUNT,
    ensures
        bytes@ == reserved_bytes(index as int),
{
    let spelling = reserved_word_spelling(index);
    proof {
        lemma_reserved_words_are_lower_case(index as int);
        is_ascii_spec_bytes(spelling);
        assert(spelling.spec_bytes() =~= ascii_bytes(spelling@));
    }
    spelling.as_bytes()
}

/// Looks `word` up in the table of reserved words by binary search, and
/// returns its place there.
pub fn find_reserved_word(word: &[u8]) -> (found: Option<usize>)
    ensures
        found == (match reserved_index(ascii_text(word@)) {
            Some(index) => Some(index as usize),
            None => None,
        }),
        found matches Some(index) ==> index < RESERVED_WORD_COUNT && reserved_words()[index as int].0
            == ascii_text(word@),
{
    let mut low: usize = 0;
    let mut high: usize = RESERVED_WORD_COUNT;
    while low < high
        invariant
            low <= high <= RESERVED_WORD_COUNT,
            forall|j: int| 0 <= j < low ==> lex_less(#[trigger] reserved_bytes(j), word@),
            forall|j: int|
                high <= j < RESERVED_WORD_COUNT ==> lex_less(word@, #[trigger] reserved_bytes(j)),
        decreases high - low,
    {
        let middle: usize = low + (high - low) / 2;
        match compare_bytes(word, reserved_word_bytes(middle)) {
            Comparison::Equal => {
                proof {
                    lemma_reserved_words_are_lower_case(middle as int);
                    lemma_ascii_round_trip(reserved_words()[middle as int].0);
                    lemma_reserved_index(middle as int, ascii_text(word@));
                }
                return Some(middle);
            },
            Comparison::Less => {
                assert forall|j: int| middle <= j < RESERVED_WORD_COUNT implies lex_less(
                    word@,
                    #[trigger] reserved_bytes(j),
                ) by {
                    if middle < j {
                        lemma_reserved_words_sorted(middle as int, j);
                        lemma_lex_less_transitive(
                            word@,
                            reserved_bytes(middle as int),
                            reserved_bytes(j),
                        );
                    }
                }
                high = middle;
            },
            Comparison::Greater => {
                assert forall|j: int| 0 <= j <= middle implies lex_less(
                    #[trigger] reserved_bytes(j),
                    word@,
                ) by {
                    if j < middle {
                        lemma_reserved_words_sorted(j, middle as int);
                        lemma_lex_less_transitive(
                            reserved_bytes(j),
                            reserved_bytes(middle as int),
                            word@,
                        );
                    }
                }
                low = middle + 1;
            },
        }
    }
    proof {
        lemma_reserved_words_spelled();
        let text = ascii_text(word@);
        assert forall|i: int| 0 <= i < reserved_words().len() implies reserved_words()[i].0
            != text by {
            if reserved_words()[i].0 == text {
                lemma_ascii_bytes_of_text(word@);
                assert(reserved_bytes(i) == word@);
                if i < low {
                    lemma_lex_less_distinct(reserved_bytes(i), word@);
                } else {
                    lemma_lex_less_distinct(word@, reserved_bytes(i));
                }
            }
        }
    }
    None
}

/// The token of a reserved word carries no payload.
pub proof fn lemma_reserved_tokens_are_plain(index: int)
    requires
        0 <= index < RESERVED_WORD_COUNT,
    ensures
        reserved_words()[index].1@ == TokenView::Plain(reserved_words()[index].1),
{
}

} // verus!
