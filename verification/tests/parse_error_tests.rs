use lalrpop::parse_error::fmt_expected;
use lalrpop::parse_error::ErrorRecovery;
use lalrpop::parse_error::ParseError;

#[test]
fn test() {
    let err = ParseError::UnrecognizedToken::<i32, &str, &str, &str> {
        token: (1, "t0", 2),
        expected: vec!["t1", "t2", "t3"]
            .into_iter()
            .map(|s| s.to_string())
            .collect(),
    };
    let err = err
        .map_location(|l| l.to_string())
        .map_token(|t: &str| t.to_string())
        .map_lexer_error(|e: &str| e.to_string())
        .map_error(|e: &str| e.to_string());
    assert_eq!(
        err.display_string(),
        "Unrecognized token `t0` found at 1:2\n\
         Expected one of t1, t2 or t3"
    );
}

#[test]
fn fmt_expected_separators() {
    let empty: Vec<String> = vec![];
    assert_eq!(fmt_expected(&empty), "");
    let one = vec!["a".to_string()];
    assert_eq!(fmt_expected(&one), "\nExpected one of a");
    let two = vec!["a".to_string(), "b".to_string()];
    assert_eq!(fmt_expected(&two), "\nExpected one of a or b");
    let three = vec!["a".to_string(), "b".to_string(), "c".to_string()];
    assert_eq!(fmt_expected(&three), "\nExpected one of a, b or c");
}

#[test]
fn display_unrecognized_eof() {
    let err: ParseError<String, String, String, String> = ParseError::UnrecognizedEof {
        location: "7".to_string(),
        expected: vec!["x".to_string()],
    };
    assert_eq!(
        err.display_string(),
        "Unrecognized EOF found at 7\nExpected one of x"
    );
}

#[test]
fn display_extra_token_and_user_and_lexer() {
    let err: ParseError<String, String, String, String> = ParseError::ExtraToken {
        token: ("3".to_string(), "tok".to_string(), "4".to_string()),
    };
    assert_eq!(err.display_string(), "Extra token tok found at 3:4");
    let user: ParseError<String, String, String, String> = ParseError::User {
        error: "boom".to_string(),
    };
    assert_eq!(user.display_string(), "boom");
    let lexer: ParseError<String, String, String, String> = ParseError::LexerError {
        error: "bad char".to_string(),
    };
    assert_eq!(lexer.display_string(), "bad char");
}

#[test]
fn map_location_maps_both_span_ends() {
    let err = ParseError::ExtraToken::<i32, &str, &str, &str> { token: (10, "t", 20) };
    let err = err.map_location(|l| l * 2);
    match err {
        ParseError::ExtraToken { token } => {
            assert_eq!(token.0, 20);
            assert_eq!(token.1, "t");
            assert_eq!(token.2, 40);
        }
        _ => panic!("variant changed"),
    }
}

#[test]
fn error_recovery_holds_dropped_tokens() {
    let rec = ErrorRecovery::<i32, &str, &str, &str> {
        error: ParseError::User { error: "e" },
        dropped_tokens: vec![(1, "a", 2), (3, "b", 4)],
    };
    assert_eq!(rec.dropped_tokens.len(), 2);
    match rec.error {
        ParseError::User { error } => assert_eq!(error, "e"),
        _ => panic!("variant changed"),
    }
}

#[test]
fn parse_error_clone_and_comparisons() {
    let err = ParseError::UnrecognizedToken::<i32, &str, &str, &str> {
        token: (1, "t0", 2),
        expected: vec!["t1".to_string()],
    };
    let copy = err.clone();
    assert_eq!(err, copy);
    let other = ParseError::ExtraToken::<i32, &str, &str, &str> { token: (1, "t0", 2) };
    assert_ne!(err, other);
    assert!(err < other || other < err);
    let rec = ErrorRecovery::<i32, &str, &str, &str> {
        error: ParseError::User { error: "e" },
        dropped_tokens: vec![(1, "a", 2)],
    };
    let rec2 = rec.clone();
    assert_eq!(rec, rec2);
}
