use svlang::error::{LexError, LexErrorKind, SourcePosition};
use svlang::lexer::Lexer;
use svlang::token::Token;

fn scan_all(input: &str) -> Result<Vec<Token>, LexError> {
    let mut lexer = Lexer::new(input.as_bytes());
    let mut tokens = Vec::new();
    loop {
        let mut token = Token::Eof;
        lexer.get_token(&mut token)?;
        if token == Token::Eof {
            return Ok(tokens);
        }
        tokens.push(token);
    }
}

fn first_error(input: &[u8]) -> LexError {
    let mut lexer = Lexer::new(input);
    let mut token = Token::Eof;
    loop {
        match lexer.get_token(&mut token) {
            Ok(()) => assert_ne!(token, Token::Eof, "the input scanned without an error"),
            Err(error) => return error,
        }
    }
}

#[test]
fn test_basic_get_token() {
    let input = "relax".as_bytes();
    let mut lexer = Lexer::new(input);
    let mut token: Token = Token::Eof;
    lexer.get_token(&mut token).unwrap();
    assert_eq!(token, Token::Relax);
}

#[test]
fn test_multiple_get_token_calls() {
    let input = "if then and while < >".as_bytes();
    let mut lexer = Lexer::new(input);
    let mut token: Token = Token::Eof;

    let expected_tokens = vec![
        Token::If,
        Token::Then,
        Token::And,
        Token::While,
        Token::LessThan,
        Token::GreaterThan,
    ];

    for expected_token in expected_tokens {
        lexer.get_token(&mut token).unwrap();
        assert_eq!(token, expected_token);
    }
}

#[test]
fn test_consuming_all_operators() {
    let input = "= >= > <= < <> - + / * ] ) , . := [ ( ;".as_bytes();
    let mut lexer = Lexer::new(input);
    let mut token: Token = Token::Eof;

    let expected_tokens = vec![
        Token::Equal,
        Token::GreaterEqual,
        Token::GreaterThan,
        Token::LessEqual,
        Token::LessThan,
        Token::NotEqual,
        Token::Minus,
        Token::Plus,
        Token::Divide,
        Token::Multiply,
        Token::CloseBracket,
        Token::CloseParenthesis,
        Token::Comma,
        Token::Concatenate,
        Token::Gets,
        Token::OpenBracket,
        Token::OpenParenthesis,
        Token::Semicolon,
    ];
    for expected_token in expected_tokens {
        lexer.get_token(&mut token).unwrap();
        assert_eq!(token, expected_token);
    }
}

#[test]
fn test_process_string_then_number_then_string() {
    let input = "\"hello\" 42 \"World\"".as_bytes();
    let mut lexer = Lexer::new(input);
    let mut token: Token = Token::Eof;

    let expected_tokens = vec![
        Token::StringLiteral(String::from("hello")),
        Token::Number(42),
        Token::StringLiteral(String::from("World")),
    ];
    for expected_token in expected_tokens {
        lexer.get_token(&mut token).unwrap();
        assert_eq!(token, expected_token);
    }
}

#[test]
fn every_reserved_word_scans_as_its_own_token() {
    let table = vec![
        ("and", Token::And),
        ("array", Token::Array),
        ("begin", Token::Begin),
        ("boolean", Token::Boolean),
        ("call", Token::Call),
        ("do", Token::Do),
        ("else", Token::Else),
        ("elsif", Token::Elsif),
        ("end", Token::End),
        ("false", Token::False),
        ("function", Token::Function),
        ("get", Token::Get),
        ("if", Token::If),
        ("integer", Token::Integer),
        ("leave", Token::Leave),
        ("not", Token::Not),
        ("or", Token::Or),
        ("put", Token::Put),
        ("relax", Token::Relax),
        ("rem", Token::Remainder),
        ("source", Token::Source),
        ("then", Token::Then),
        ("to", Token::To),
        ("true", Token::True),
        ("while", Token::While),
    ];
    for (spelling, expected) in table {
        let mut lexer = Lexer::new(spelling.as_bytes());
        let mut token = Token::Eof;
        lexer.get_token(&mut token).unwrap();
        assert_eq!(token, expected, "{}", spelling);
        lexer.get_token(&mut token).unwrap();
        assert_eq!(token, Token::Eof, "{}", spelling);
    }
}

#[test]
fn reserved_words_are_case_sensitive_and_exact() {
    assert_eq!(
        scan_all("If WHILE an andy _and rema").unwrap(),
        vec![
            Token::Id(String::from("If")),
            Token::Id(String::from("WHILE")),
            Token::Id(String::from("an")),
            Token::Id(String::from("andy")),
            Token::Id(String::from("_and")),
            Token::Id(String::from("rema")),
        ]
    );
}

#[test]
fn words_that_are_not_reserved_are_identifiers() {
    assert_eq!(scan_all("x").unwrap(), vec![Token::Id(String::from("x"))]);
    assert_eq!(scan_all("_").unwrap(), vec![Token::Id(String::from("_"))]);
    assert_eq!(scan_all("name_1").unwrap(), vec![Token::Id(String::from("name_1"))]);
    let longest = "a234567890123456789012345678901";
    assert_eq!(longest.len(), 31);
    assert_eq!(scan_all(longest).unwrap(), vec![Token::Id(String::from(longest))]);
}

#[test]
fn a_word_of_thirty_two_bytes_is_the_longest() {
    let at_the_limit = "abcdefghijklmnopqrstuvwxyz012345";
    assert_eq!(at_the_limit.len(), 32);
    assert_eq!(scan_all(at_the_limit).unwrap(), vec![Token::Id(String::from(at_the_limit))]);
    let followed = format!("{} ;", at_the_limit);
    assert_eq!(
        scan_all(&followed).unwrap(),
        vec![Token::Id(String::from(at_the_limit)), Token::Semicolon]
    );

    let too_long = "abcdefghijklmnopqrstuvwxyz0123456";
    assert_eq!(too_long.len(), 33);
    let error = first_error(format!("  {}", too_long).as_bytes());
    assert_eq!(error.kind, LexErrorKind::IdentifierTooLong);
    assert_eq!(error.position, SourcePosition { line: 1, col: 2 });
    assert_eq!(error.byte, None);
}

#[test]
fn decimal_literals_have_their_value() {
    assert_eq!(scan_all("0").unwrap(), vec![Token::Number(0)]);
    assert_eq!(scan_all("7").unwrap(), vec![Token::Number(7)]);
    assert_eq!(scan_all("1235").unwrap(), vec![Token::Number(1235)]);
    assert_eq!(scan_all("2147483647").unwrap(), vec![Token::Number(2147483647)]);
    assert_eq!(scan_all("0000000000002147483647").unwrap(), vec![Token::Number(2147483647)]);
    assert_eq!(scan_all("007").unwrap(), vec![Token::Number(7)]);
}

#[test]
fn two_to_the_thirty_first_is_too_large() {
    let error = first_error(b"2147483648");
    assert_eq!(error.kind, LexErrorKind::NumberTooLarge);
    assert_eq!(error.position, SourcePosition { line: 1, col: 0 });
    assert_eq!(error.byte, None);

    assert_eq!(first_error(b"2147483650").kind, LexErrorKind::NumberTooLarge);
    assert_eq!(first_error(b"99999999999999999999").kind, LexErrorKind::NumberTooLarge);
    let error = first_error(b"x := 3000000000;");
    assert_eq!(error.kind, LexErrorKind::NumberTooLarge);
    assert_eq!(error.position, SourcePosition { line: 1, col: 5 });
}

#[test]
fn a_number_ends_where_its_digits_end() {
    assert_eq!(
        scan_all("12abc 3+4").unwrap(),
        vec![
            Token::Number(12),
            Token::Id(String::from("abc")),
            Token::Number(3),
            Token::Plus,
            Token::Number(4),
        ]
    );
}

#[test]
fn two_tokens_apart_by_one_space_keep_their_own_places() {
    let mut lexer = Lexer::new(b"abc 42");
    assert_eq!(lexer.position(), SourcePosition { line: 1, col: 0 });
    let mut token = Token::Eof;
    lexer.get_token(&mut token).unwrap();
    assert_eq!(token, Token::Id(String::from("abc")));
    assert_eq!(lexer.position(), SourcePosition { line: 1, col: 0 });
    lexer.get_token(&mut token).unwrap();
    assert_eq!(token, Token::Number(42));
    assert_eq!(lexer.position(), SourcePosition { line: 1, col: 4 });
    lexer.get_token(&mut token).unwrap();
    assert_eq!(token, Token::Eof);
    assert_eq!(lexer.position(), SourcePosition { line: 1, col: 6 });

    let mut lexer = Lexer::new(b"<= \"a b\"");
    lexer.get_token(&mut token).unwrap();
    assert_eq!(token, Token::LessEqual);
    assert_eq!(lexer.position(), SourcePosition { line: 1, col: 0 });
    lexer.get_token(&mut token).unwrap();
    assert_eq!(token, Token::StringLiteral(String::from("a b")));
    assert_eq!(lexer.position(), SourcePosition { line: 1, col: 3 });
}

#[test]
fn the_byte_after_a_newline_is_in_column_one_of_the_next_line() {
    let mut lexer = Lexer::new(b"a\nbc\r\n\n  d");
    let mut token = Token::Eof;
    lexer.get_token(&mut token).unwrap();
    assert_eq!(lexer.position(), SourcePosition { line: 1, col: 0 });
    lexer.get_token(&mut token).unwrap();
    assert_eq!(token, Token::Id(String::from("bc")));
    assert_eq!(lexer.position(), SourcePosition { line: 2, col: 1 });
    lexer.get_token(&mut token).unwrap();
    assert_eq!(token, Token::Id(String::from("d")));
    assert_eq!(lexer.position(), SourcePosition { line: 4, col: 3 });
}

#[test]
fn nested_comments_are_transparent() {
    assert_eq!(
        scan_all("{ outer { inner } still outer }relax").unwrap(),
        vec![Token::Relax]
    );
    assert_eq!(
        scan_all("{ outer { inner } still outer } relax").unwrap(),
        vec![Token::Relax]
    );
    assert_eq!(
        scan_all("a{}{x}\t{ {{}} }\n b {last}").unwrap(),
        vec![Token::Id(String::from("a")), Token::Id(String::from("b"))]
    );
    assert_eq!(scan_all("{}").unwrap(), vec![]);
}

#[test]
fn an_open_comment_is_reported_at_its_outermost_brace() {
    let error = first_error(b"{ unclosed");
    assert_eq!(error.kind, LexErrorKind::UnterminatedComment);
    assert_eq!(error.position, SourcePosition { line: 1, col: 0 });
    assert_eq!(error.byte, None);

    let error = first_error(b"a\n  { outer { inner } \n still open");
    assert_eq!(error.kind, LexErrorKind::UnterminatedComment);
    assert_eq!(error.position, SourcePosition { line: 2, col: 3 });

    let error = first_error(b"{ok} { outer { inner");
    assert_eq!(error.kind, LexErrorKind::UnterminatedComment);
    assert_eq!(error.position, SourcePosition { line: 1, col: 5 });

    let error = first_error(b"{");
    assert_eq!(error.kind, LexErrorKind::UnterminatedComment);
    assert_eq!(error.position, SourcePosition { line: 1, col: 0 });
}

#[test]
fn a_closing_brace_outside_a_comment_is_illegal() {
    let error = first_error(b"a }");
    assert_eq!(error.kind, LexErrorKind::IllegalCharacter);
    assert_eq!(error.byte, Some(b'}'));
    assert_eq!(error.position, SourcePosition { line: 1, col: 2 });
}

#[test]
fn an_escaped_quote_stays_in_the_string() {
    assert_eq!(
        scan_all("\"ab\\\"cd\"").unwrap(),
        vec![Token::StringLiteral(String::from("ab\"cd"))]
    );
}

#[test]
fn escapes_keep_the_byte_after_the_backslash() {
    assert_eq!(
        scan_all("\"a\\nb\\tc\"").unwrap(),
        vec![Token::StringLiteral(String::from("anbtc"))]
    );
    assert_eq!(
        scan_all("\"a\\\\b\"").unwrap(),
        vec![Token::StringLiteral(String::from("a\\\\b"))]
    );
    assert_eq!(scan_all("\"\"").unwrap(), vec![Token::StringLiteral(String::new())]);
    assert_eq!(
        scan_all("\"{ no comment } 12 if\"").unwrap(),
        vec![Token::StringLiteral(String::from("{ no comment } 12 if"))]
    );
    assert_eq!(
        scan_all("\"one\ntwo\" x").unwrap(),
        vec![Token::StringLiteral(String::from("one\ntwo")), Token::Id(String::from("x"))]
    );
}

#[test]
fn an_unknown_escape_is_reported_at_the_escaped_byte() {
    let error = first_error(b"\"ab\\qcd\"");
    assert_eq!(error.kind, LexErrorKind::IllegalEscapeCode);
    assert_eq!(error.byte, Some(b'q'));
    assert_eq!(error.position, SourcePosition { line: 1, col: 4 });

    let error = first_error(b"\"\\\xc3\"");
    assert_eq!(error.kind, LexErrorKind::IllegalEscapeCode);
    assert_eq!(error.byte, Some(0xc3));
}

#[test]
fn a_byte_above_127_in_a_string_is_not_printable() {
    let error = first_error(b"x \"caf\xc3\xa9\"");
    assert_eq!(error.kind, LexErrorKind::NonPrintableCharacter);
    assert_eq!(error.byte, Some(0xc3));
    assert_eq!(error.position, SourcePosition { line: 1, col: 6 });
}

#[test]
fn an_open_string_is_reported_at_its_quote() {
    let error = first_error(b"  \"abc");
    assert_eq!(error.kind, LexErrorKind::UnterminatedString);
    assert_eq!(error.position, SourcePosition { line: 1, col: 2 });
    assert_eq!(error.byte, None);

    let error = first_error(b"\"");
    assert_eq!(error.kind, LexErrorKind::UnterminatedString);
    assert_eq!(error.position, SourcePosition { line: 1, col: 0 });

    let error = first_error(b"a\n \"abc\n\\");
    assert_eq!(error.kind, LexErrorKind::UnterminatedString);
    assert_eq!(error.position, SourcePosition { line: 2, col: 2 });
}

#[test]
fn less_than_is_told_from_its_longer_relatives() {
    assert_eq!(scan_all("< ").unwrap(), vec![Token::LessThan]);
    assert_eq!(scan_all("<= ").unwrap(), vec![Token::LessEqual]);
    assert_eq!(scan_all("<> ").unwrap(), vec![Token::NotEqual]);
    assert_eq!(scan_all("<").unwrap(), vec![Token::LessThan]);
    assert_eq!(scan_all(">").unwrap(), vec![Token::GreaterThan]);
    assert_eq!(scan_all(">=").unwrap(), vec![Token::GreaterEqual]);
    assert_eq!(scan_all("><").unwrap(), vec![Token::GreaterThan, Token::LessThan]);
    assert_eq!(scan_all("<<=").unwrap(), vec![Token::LessThan, Token::LessEqual]);
    assert_eq!(scan_all("a:=b").unwrap(), vec![
        Token::Id(String::from("a")),
        Token::Gets,
        Token::Id(String::from("b")),
    ]);
}

#[test]
fn a_colon_alone_is_illegal() {
    let error = first_error(b":");
    assert_eq!(error.kind, LexErrorKind::IllegalCharacter);
    assert_eq!(error.byte, Some(b':'));
    assert_eq!(error.position, SourcePosition { line: 1, col: 0 });

    let error = first_error(b"a : = b");
    assert_eq!(error.kind, LexErrorKind::IllegalCharacter);
    assert_eq!(error.byte, Some(b':'));
    assert_eq!(error.position, SourcePosition { line: 1, col: 2 });
}

#[test]
fn bytes_that_start_no_token_are_illegal() {
    for byte in [b'!', b'#', b'$', b'%', b'&', b'\'', b'?', b'@', b'\\', b'^', b'`', b'|', b'~', 0u8, 12u8, 127u8, 200u8] {
        let error = first_error(&[b'a', b'\n', byte]);
        assert_eq!(error.kind, LexErrorKind::IllegalCharacter);
        assert_eq!(error.byte, Some(byte));
        assert_eq!(error.position, SourcePosition { line: 2, col: 1 });
    }
}

#[test]
fn the_end_of_the_input_is_handed_out_again_and_again() {
    let mut lexer = Lexer::new(b"");
    let mut token = Token::Relax;
    for _ in 0..3 {
        lexer.get_token(&mut token).unwrap();
        assert_eq!(token, Token::Eof);
        assert_eq!(lexer.position(), SourcePosition { line: 1, col: 0 });
    }

    let mut lexer = Lexer::new(b"x \n");
    lexer.get_token(&mut token).unwrap();
    assert_eq!(token, Token::Id(String::from("x")));
    for _ in 0..3 {
        lexer.get_token(&mut token).unwrap();
        assert_eq!(token, Token::Eof);
        assert_eq!(lexer.position(), SourcePosition { line: 2, col: 1 });
    }
}

#[test]
fn a_failed_call_changes_nothing() {
    let mut lexer = Lexer::new(b"ok  {c} 99999999999 rest");
    let mut token = Token::Eof;
    lexer.get_token(&mut token).unwrap();
    assert_eq!(token, Token::Id(String::from("ok")));
    let first = lexer.get_token(&mut token).unwrap_err();
    assert_eq!(first.kind, LexErrorKind::NumberTooLarge);
    assert_eq!(first.position, SourcePosition { line: 1, col: 8 });
    assert_eq!(token, Token::Id(String::from("ok")));
    assert_eq!(lexer.position(), SourcePosition { line: 1, col: 0 });
    let second = lexer.get_token(&mut token).unwrap_err();
    assert_eq!(second, first);
}

#[test]
fn the_default_position_is_before_the_first_byte() {
    assert_eq!(SourcePosition::default(), SourcePosition { line: 1, col: 0 });
}

#[test]
fn a_small_program_scans_token_by_token() {
    let source = "function name(a, b)\n{ adds }\nbegin\n  put a + 1235 . \"\\\"x\\\"\";\nend";
    assert_eq!(
        scan_all(source).unwrap(),
        vec![
            Token::Function,
            Token::Id(String::from("name")),
            Token::OpenParenthesis,
            Token::Id(String::from("a")),
            Token::Comma,
            Token::Id(String::from("b")),
            Token::CloseParenthesis,
            Token::Begin,
            Token::Put,
            Token::Id(String::from("a")),
            Token::Plus,
            Token::Number(1235),
            Token::Concatenate,
            Token::StringLiteral(String::from("\"x\"")),
            Token::Semicolon,
            Token::End,
        ]
    );
}

#[test]
fn a_newline_is_still_on_the_line_that_it_ends() {
    let mut lexer = Lexer::new(b"ab\n\ncd");
    let places = [(1, 0), (1, 1), (1, 2), (2, 1), (3, 1), (3, 2), (3, 3), (3, 3)];
    for (line, col) in places {
        assert_eq!(lexer.cursor(), SourcePosition { line, col });
        lexer.next_char();
    }
    assert_eq!(lexer.position(), SourcePosition { line: 1, col: 0 });
}

#[test]
fn the_cursor_rests_behind_the_token_that_was_read() {
    let mut lexer = Lexer::new(b"  begin\n  end");
    let mut token = Token::Eof;
    lexer.get_token(&mut token).unwrap();
    assert_eq!(token, Token::Begin);
    assert_eq!(lexer.position(), SourcePosition { line: 1, col: 2 });
    assert_eq!(lexer.cursor(), SourcePosition { line: 1, col: 7 });
    lexer.get_token(&mut token).unwrap();
    assert_eq!(token, Token::End);
    assert_eq!(lexer.position(), SourcePosition { line: 2, col: 3 });
    assert_eq!(lexer.cursor(), SourcePosition { line: 2, col: 6 });
}

#[test]
fn a_caller_can_step_over_what_does_not_scan() {
    let mut lexer = Lexer::new(b"a ? b");
    let mut token = Token::Eof;
    lexer.get_token(&mut token).unwrap();
    assert_eq!(token, Token::Id(String::from("a")));
    let error = lexer.get_token(&mut token).unwrap_err();
    assert_eq!(error.kind, LexErrorKind::IllegalCharacter);
    assert_eq!(lexer.cursor(), SourcePosition { line: 1, col: 1 });
    while lexer.cursor() != error.position {
        lexer.next_char();
    }
    lexer.next_char();
    lexer.get_token(&mut token).unwrap();
    assert_eq!(token, Token::Id(String::from("b")));
    assert_eq!(lexer.position(), SourcePosition { line: 1, col: 4 });
}
