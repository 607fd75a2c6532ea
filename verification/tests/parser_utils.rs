use pkgatom::parser_utils::{whitespace, ParseError};

#[test]
fn test_whitespace_consumes_longest_run() {
    let (matched, rest) = whitespace(" \t\n x").unwrap();
    assert_eq!(matched, " \t\n ");
    assert_eq!(rest, 4);
}

#[test]
fn test_whitespace_requires_one_char() {
    assert_eq!(whitespace("x y"), Err(ParseError::Fail(0)));
    assert!(whitespace("").is_err());
}
