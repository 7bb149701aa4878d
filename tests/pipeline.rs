use trace_verifier::lexer;
use trace_verifier::normalizer::normalize_tokens;
use trace_verifier::parser::{parse_tokens, Event, Expected, Operation, SyntaxError};
use trace_verifier::token::{Location, Token};

#[test]
fn normalization_drops_brackets_and_collapses_separators() {
    let tokens = vec![
        Token::ThreadIdentifier(1),
        Token::Pipe,
        Token::Pipe,
        Token::LeftSquareBracket,
        Token::Write,
        Token::RightSquareBracket,
        Token::Pipe,
    ];
    let once = normalize_tokens(tokens);
    assert_eq!(once, vec![Token::ThreadIdentifier(1), Token::Pipe, Token::Write, Token::Pipe]);
    let twice = normalize_tokens(once.clone());
    assert_eq!(twice, once);
}

#[test]
fn tokenize_with_normalization_applies_it() {
    let plain = lexer::tokenize_source("T1||w(V1)|3".to_string(), false).unwrap();
    assert_eq!(plain.len(), 9);
    let normal = lexer::tokenize_source("T1||w(V1)|3".to_string(), true).unwrap();
    assert_eq!(normal.len(), 8);
    assert!(lexer::tokenize_source("T1|*".to_string(), true).is_err());
}

#[test]
fn parses_every_operation_form() {
    let tokens = lexer::tokenize_source(
        "T1|fork(T2)|1 T2|acq(L3)|2 T2|w(V4)|3 T2|r(V4)|4 T2|rel(L3)|5 T2|req(L3)|6 T1|join(T2)|7"
            .to_string(),
        false,
    )
    .unwrap();
    let events = parse_tokens(&tokens).unwrap();
    let v4 = Location { variable: 4, qualifier: None };
    assert_eq!(
        events,
        vec![
            Event { source_line: 1, thread: 1, operation: Operation::Fork(2) },
            Event { source_line: 2, thread: 2, operation: Operation::Acquire(3) },
            Event { source_line: 3, thread: 2, operation: Operation::Write(v4) },
            Event { source_line: 4, thread: 2, operation: Operation::Read(v4) },
            Event { source_line: 5, thread: 2, operation: Operation::Release(3) },
            Event { source_line: 6, thread: 2, operation: Operation::Request(3) },
            Event { source_line: 7, thread: 1, operation: Operation::Join(2) },
        ]
    );
}

#[test]
fn wrong_operand_kind_is_a_syntax_error() {
    let tokens = lexer::tokenize_source("T1|acq(V1)|1".to_string(), false).unwrap();
    let err = parse_tokens(&tokens).unwrap_err();
    assert_eq!(
        err,
        SyntaxError {
            expected: Expected::LockIdentifier,
            found: Some(Token::MemoryLocation(Location { variable: 1, qualifier: None })),
            position: 4,
        }
    );
}

#[test]
fn truncated_record_reports_end_of_input() {
    let tokens = lexer::tokenize_source("T1|w(V1)|".to_string(), false).unwrap();
    let err = parse_tokens(&tokens).unwrap_err();
    assert_eq!(err, SyntaxError { expected: Expected::LineNumber, found: None, position: 7 });
}

#[test]
fn record_must_start_with_a_thread() {
    let tokens = lexer::tokenize_source("L1|w(V1)|1".to_string(), false).unwrap();
    let err = parse_tokens(&tokens).unwrap_err();
    assert_eq!(err.expected, Expected::ThreadIdentifier);
    assert_eq!(err.position, 0);
}

#[test]
fn missing_operation_is_reported() {
    let tokens = lexer::tokenize_source("T1|T2".to_string(), false).unwrap();
    let err = parse_tokens(&tokens).unwrap_err();
    assert_eq!(err, SyntaxError { expected: Expected::Operation, found: Some(Token::ThreadIdentifier(2)), position: 2 });
}

#[test]
fn empty_token_sequence_parses_to_nothing() {
    assert_eq!(parse_tokens(&vec![]).unwrap(), vec![]);
}
