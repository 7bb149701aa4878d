use trace_verifier::token::{tokenize_bytes, tokenize_source, LexerError, Location, Qualifier, Token};

#[test]
fn when_valid_tokens_expect_lexing_succeeds() {
    let input = "T6|w(4294967298)|59";
    let result = tokenize_source(input.to_string());

    assert!(result.is_ok());
    assert_eq!(result.unwrap().len(), 8);
}

#[test]
fn when_invalid_tokens_expect_lexing_fails() {
    let input = "T6|w(4294967298)*|59";
    let result = tokenize_source(input.to_string());

    assert!(result.is_err());
    assert_eq!(
        result.unwrap_err().to_string(),
        "Logos encountered an non-ascii character"
    );
}

#[test]
fn seven_records_give_fifty_six_tokens() {
    let input = "T1|fork(T2)|1\nT2|req(L1)|2\nT2|acq(L1)|3\nT2|w(V1)|4\n\
                 T2|r(V2.3[4])|5\nT2|rel(L1)|6\nT1|join(T2)|7\n";
    let tokens = tokenize_source(input.to_string()).unwrap();
    assert_eq!(tokens.len(), 56);
    assert_eq!(tokens[0], Token::ThreadIdentifier(1));
    assert_eq!(tokens[2], Token::Fork);
    assert_eq!(tokens[4], Token::ThreadIdentifier(2));
    assert_eq!(tokens[7], Token::LineNumber(1));
    assert_eq!(tokens[10], Token::Request);
    assert_eq!(tokens[12], Token::LockIdentifier(1));
    assert_eq!(tokens[18], Token::Acquire);
    assert_eq!(tokens[34], Token::Read);
    assert_eq!(
        tokens[36],
        Token::MemoryLocation(Location { variable: 2, qualifier: Some(Qualifier { field: 3, index: 4 }) })
    );
    assert_eq!(tokens[42], Token::Release);
    assert_eq!(tokens[50], Token::Join);
}

#[test]
fn whitespace_of_every_kind_is_skipped() {
    let tokens = tokenize_source(" \t\r\n\x0c| ".to_string()).unwrap();
    assert_eq!(tokens, vec![Token::Pipe]);
}

#[test]
fn empty_input_gives_no_tokens() {
    assert_eq!(tokenize_source(String::new()).unwrap(), vec![]);
}

#[test]
fn non_ascii_character_is_rejected_at_its_position() {
    let err = tokenize_source("T1|ü".to_string()).unwrap_err();
    assert_eq!(err, LexerError::NonAsciiCharacter { position: 3 });
}

#[test]
fn bare_letter_without_digits_is_rejected() {
    let err = tokenize_source("T1|T".to_string()).unwrap_err();
    assert_eq!(err, LexerError::NonAsciiCharacter { position: 3 });
}

#[test]
fn incomplete_keyword_is_rejected() {
    let err = tokenize_source("fo".to_string()).unwrap_err();
    assert_eq!(err, LexerError::NonAsciiCharacter { position: 0 });
}

#[test]
fn r_alone_is_a_read() {
    let tokens = tokenize_bytes(b"r(V1)").unwrap();
    assert_eq!(tokens[0], Token::Read);
    assert_eq!(tokens[2], Token::MemoryLocation(Location { variable: 1, qualifier: None }));
}

#[test]
fn incomplete_qualifier_leaves_plain_location() {
    let tokens = tokenize_bytes(b"V7[").unwrap();
    assert_eq!(
        tokens,
        vec![Token::MemoryLocation(Location { variable: 7, qualifier: None }), Token::LeftSquareBracket]
    );
}

#[test]
fn largest_number_is_read_and_one_more_is_rejected() {
    let tokens = tokenize_bytes(b"9223372036854775807").unwrap();
    assert_eq!(tokens, vec![Token::LineNumber(i64::MAX)]);
    let err = tokenize_bytes(b"T9223372036854775808").unwrap_err();
    assert_eq!(err, LexerError::NonAsciiCharacter { position: 0 });
}

#[test]
fn lexing_twice_gives_the_same_tokens() {
    let input = "T1|w(V1)|1 T2|w(V1)|2";
    assert_eq!(tokenize_source(input.to_string()), tokenize_source(input.to_string()));
}
