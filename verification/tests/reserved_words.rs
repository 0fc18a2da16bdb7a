use svlang::token::{
    create_token_from_reserved_words_index, find_reserved_word, reserved_word_spelling, Token,
    MAX_ID_LENGTH, RESERVED_WORD_COUNT,
};

#[test]
fn the_table_pairs_each_spelling_with_its_token() {
    assert_eq!(RESERVED_WORD_COUNT, 25);
    assert_eq!(MAX_ID_LENGTH, 32);
    assert_eq!(reserved_word_spelling(0), "and");
    assert_eq!(create_token_from_reserved_words_index(0), Token::And);
    assert_eq!(reserved_word_spelling(16), "or");
    assert_eq!(create_token_from_reserved_words_index(16), Token::Or);
    assert_eq!(reserved_word_spelling(19), "rem");
    assert_eq!(create_token_from_reserved_words_index(19), Token::Remainder);
    assert_eq!(reserved_word_spelling(24), "while");
    assert_eq!(create_token_from_reserved_words_index(24), Token::While);
}

#[test]
fn the_table_is_in_the_order_of_its_spellings() {
    for index in 1..RESERVED_WORD_COUNT {
        assert!(
            reserved_word_spelling(index - 1).as_bytes() < reserved_word_spelling(index).as_bytes(),
            "{} and {}",
            reserved_word_spelling(index - 1),
            reserved_word_spelling(index)
        );
    }
}

#[test]
fn every_reserved_word_is_found_at_its_place() {
    for index in 0..RESERVED_WORD_COUNT {
        assert_eq!(find_reserved_word(reserved_word_spelling(index).as_bytes()), Some(index));
    }
}

#[test]
fn other_words_are_not_found() {
    for word in ["", "a", "an", "andy", "And", "WHILE", "whilf", "zzz", "0", "rema", "re", "_", "tp"] {
        assert_eq!(find_reserved_word(word.as_bytes()), None, "{}", word);
    }
}
