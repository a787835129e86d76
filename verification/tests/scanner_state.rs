use lox_compiler::lexer::{is_alphanumeric, scan_tokens, Scanner};
use lox_compiler::token::TokenType;

#[test]
fn scan_tokens_runs_from_a_fresh_scanner() {
    let mut scanner = Scanner {
        source: "(}".to_string(),
        tokens: Vec::new(),
        start: 0,
        current: 0,
        line: 1,
    };
    let tokens = scan_tokens(&mut scanner);
    let expected = vec![
        TokenType::LEFT_PAREN,
        TokenType::RIGHT_BRACE,
        TokenType::EOF,
    ];
    let got: Vec<TokenType> = tokens.iter().map(|t| t.token_type.clone()).collect();
    assert_eq!(got, expected);
    // the returned sequence is a copy of the scanner's own
    assert_eq!(scanner.tokens, tokens);
    assert_eq!(scanner.current, 2);
}

#[test]
fn scan_tokens_resumes_mid_buffer() {
    let mut scanner = Scanner {
        source: "*+".to_string(),
        tokens: Vec::new(),
        start: 1,
        current: 1,
        line: 1,
    };
    let tokens = scan_tokens(&mut scanner);
    let got: Vec<TokenType> = tokens.iter().map(|t| t.token_type.clone()).collect();
    assert_eq!(got, vec![TokenType::PLUS, TokenType::EOF]);
}

#[test]
fn identifier_characters_are_letters_and_underscore() {
    assert!(is_alphanumeric('a'));
    assert!(is_alphanumeric('z'));
    assert!(is_alphanumeric('A'));
    assert!(is_alphanumeric('Z'));
    assert!(is_alphanumeric('_'));
    assert!(!is_alphanumeric('0'));
    assert!(!is_alphanumeric('9'));
    assert!(!is_alphanumeric(' '));
    assert!(!is_alphanumeric('"'));
}
