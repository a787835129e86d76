use lox_compiler::lexer::scan;
use lox_compiler::token::{Token, TokenType};

fn kinds(tokens: &[Token]) -> Vec<TokenType> {
    tokens.iter().map(|t| t.token_type.clone()).collect()
}

#[test]
fn empty_input_gives_only_eof() {
    let tokens = scan(String::new());
    assert_eq!(tokens.len(), 1);
    assert_eq!(tokens[0].token_type, TokenType::EOF);
    assert_eq!(tokens[0].lexeme, "");
    assert_eq!(tokens[0].line, 1);
}

#[test]
fn last_token_is_eof_and_unique() {
    let source = "var x = (1 + 2.5) * \"hi\"; // trailing\n!=";
    let tokens = scan(source.to_string());
    assert!(!tokens.is_empty());
    assert_eq!(tokens.last().unwrap().token_type, TokenType::EOF);
    let eof_count = tokens
        .iter()
        .filter(|t| t.token_type == TokenType::EOF)
        .count();
    assert_eq!(eof_count, 1);
}

#[test]
fn single_left_paren() {
    let tokens = scan("(".to_string());
    assert_eq!(
        kinds(&tokens),
        vec![TokenType::LEFT_PAREN, TokenType::EOF]
    );
    assert_eq!(tokens[0].lexeme, "(");
    assert_eq!(tokens[0].line, 1);
}

#[test]
fn all_single_character_punctuation() {
    let cases = vec![
        ("(", TokenType::LEFT_PAREN),
        (")", TokenType::RIGHT_PAREN),
        ("{", TokenType::LEFT_BRACE),
        ("}", TokenType::RIGHT_BRACE),
        (",", TokenType::COMMA),
        (".", TokenType::DOT),
        ("-", TokenType::MINUS),
        ("+", TokenType::PLUS),
        (";", TokenType::SEMICOLON),
        ("/", TokenType::SLASH),
        ("*", TokenType::STAR),
    ];
    for (text, kind) in cases {
        let tokens = scan(text.to_string());
        assert_eq!(kinds(&tokens), vec![kind, TokenType::EOF]);
        assert_eq!(tokens[0].lexeme, text);
    }
}

#[test]
fn two_character_operators_are_greedy() {
    let cases = vec![
        ("!=", TokenType::BANG_EQUAL),
        ("==", TokenType::EQUAL_EQUAL),
        ("<=", TokenType::LESS_EQUAL),
        (">=", TokenType::GREATER_EQUAL),
    ];
    for (text, kind) in cases {
        let tokens = scan(text.to_string());
        assert_eq!(kinds(&tokens), vec![kind, TokenType::EOF]);
        assert_eq!(tokens[0].lexeme, text);
    }
}

#[test]
fn bang_alone_at_end_of_input() {
    let tokens = scan("!".to_string());
    assert_eq!(kinds(&tokens), vec![TokenType::BANG, TokenType::EOF]);
}

#[test]
fn bang_before_other_character_stays_alone() {
    let tokens = scan("!x".to_string());
    assert_eq!(
        kinds(&tokens),
        vec![TokenType::BANG, TokenType::IDENTIFIER, TokenType::EOF]
    );
    assert_eq!(tokens[1].lexeme, "x");
}

#[test]
fn one_character_operators() {
    let cases = vec![
        ("=", TokenType::EQUAL),
        ("<", TokenType::LESS),
        (">", TokenType::GREATER),
    ];
    for (text, kind) in cases {
        let tokens = scan(text.to_string());
        assert_eq!(kinds(&tokens), vec![kind, TokenType::EOF]);
    }
}

#[test]
fn integer_literal() {
    let tokens = scan("123".to_string());
    assert_eq!(
        kinds(&tokens),
        vec![TokenType::NUMBER(123), TokenType::EOF]
    );
    assert_eq!(tokens[0].lexeme, "123");
}

#[test]
fn float_literal() {
    let tokens = scan("1.5".to_string());
    assert_eq!(kinds(&tokens), vec![TokenType::FLOAT, TokenType::EOF]);
    assert_eq!(tokens[0].lexeme, "1.5");
    assert_eq!(tokens[0].lexeme.parse::<f32>().unwrap(), 1.5f32);
}

#[test]
fn integer_followed_by_bare_dot() {
    let tokens = scan("1.".to_string());
    assert_eq!(
        kinds(&tokens),
        vec![TokenType::NUMBER(1), TokenType::DOT, TokenType::EOF]
    );
    assert_eq!(tokens[0].lexeme, "1");
    assert_eq!(tokens[1].lexeme, ".");
}

#[test]
fn largest_integer_fits() {
    let tokens = scan("4294967295".to_string());
    assert_eq!(
        kinds(&tokens),
        vec![TokenType::NUMBER(u32::MAX), TokenType::EOF]
    );
}

#[test]
fn integer_overflow_gives_err_token() {
    let tokens = scan("4294967296".to_string());
    assert_eq!(kinds(&tokens), vec![TokenType::ERR, TokenType::EOF]);
    assert_eq!(tokens[0].lexeme, "4294967296");
}

#[test]
fn multiline_string_literal() {
    let tokens = scan("\"hello\nworld\"".to_string());
    assert_eq!(kinds(&tokens), vec![TokenType::STRING, TokenType::EOF]);
    assert_eq!(tokens[0].lexeme, "hello\nworld");
    assert_eq!(tokens[0].line, 2);
    assert_eq!(tokens[1].line, 2);
}

#[test]
fn string_lexeme_excludes_quotes_without_escape_processing() {
    let tokens = scan("\"a\\nb\"".to_string());
    assert_eq!(kinds(&tokens), vec![TokenType::STRING, TokenType::EOF]);
    assert_eq!(tokens[0].lexeme, "a\\nb");
}

#[test]
fn comment_contributes_no_token() {
    let tokens = scan("// comment\nvar".to_string());
    assert_eq!(kinds(&tokens), vec![TokenType::VAR, TokenType::EOF]);
    assert_eq!(tokens[0].line, 2);
}

#[test]
fn comment_at_end_without_newline() {
    let tokens = scan("// just a comment".to_string());
    assert_eq!(kinds(&tokens), vec![TokenType::EOF]);
}

#[test]
fn unterminated_string_emits_no_token() {
    let tokens = scan("\"abc".to_string());
    assert_eq!(kinds(&tokens), vec![TokenType::EOF]);
}

#[test]
fn every_keyword_scans_to_its_kind() {
    let cases = vec![
        ("and", TokenType::AND),
        ("class", TokenType::CLASS),
        ("else", TokenType::ELSE),
        ("false", TokenType::FALSE),
        ("fun", TokenType::FUN),
        ("for", TokenType::FOR),
        ("if", TokenType::IF),
        ("nil", TokenType::NIL),
        ("or", TokenType::OR),
        ("print", TokenType::PRINT),
        ("return", TokenType::RETURN),
        ("super", TokenType::SUPER),
        ("this", TokenType::THIS),
        ("true", TokenType::TRUE),
        ("var", TokenType::VAR),
        ("while", TokenType::WHILE),
    ];
    for (text, kind) in cases {
        let tokens = scan(text.to_string());
        assert_eq!(kinds(&tokens), vec![kind, TokenType::EOF]);
        assert_ne!(tokens[0].token_type, TokenType::IDENTIFIER);
        assert_eq!(tokens[0].lexeme, text);
    }
}

#[test]
fn near_keywords_are_identifiers() {
    for text in ["ands", "clas", "For", "tru", "_var"] {
        let tokens = scan(text.to_string());
        assert_eq!(
            kinds(&tokens),
            vec![TokenType::IDENTIFIER, TokenType::EOF]
        );
        assert_eq!(tokens[0].lexeme, text);
    }
}

#[test]
fn scanning_twice_yields_identical_sequences() {
    let source = "fun f() { return \"two\nlines\" + 1.25; } // end";
    let first = scan(source.to_string());
    let second = scan(source.to_string());
    assert_eq!(first, second);
}

#[test]
fn digits_do_not_continue_identifiers() {
    let tokens = scan("ab1".to_string());
    assert_eq!(
        kinds(&tokens),
        vec![TokenType::IDENTIFIER, TokenType::NUMBER(1), TokenType::EOF]
    );
    assert_eq!(tokens[0].lexeme, "ab");
}

#[test]
fn invalid_characters_are_skipped() {
    let tokens = scan("(@)".to_string());
    assert_eq!(
        kinds(&tokens),
        vec![TokenType::LEFT_PAREN, TokenType::RIGHT_PAREN, TokenType::EOF]
    );
}

#[test]
fn newlines_advance_the_line_counter() {
    let tokens = scan("(\n)".to_string());
    assert_eq!(
        kinds(&tokens),
        vec![TokenType::LEFT_PAREN, TokenType::RIGHT_PAREN, TokenType::EOF]
    );
    assert_eq!(tokens[0].line, 1);
    assert_eq!(tokens[1].line, 2);
    assert_eq!(tokens[2].line, 2);
}

#[test]
fn whitespace_is_consumed_without_tokens() {
    let tokens = scan(" \t\r".to_string());
    assert_eq!(kinds(&tokens), vec![TokenType::EOF]);
}

#[test]
fn mixed_statement() {
    let tokens = scan("var answer = 6 * 7;".to_string());
    assert_eq!(
        kinds(&tokens),
        vec![
            TokenType::VAR,
            TokenType::IDENTIFIER,
            TokenType::EQUAL,
            TokenType::NUMBER(6),
            TokenType::STAR,
            TokenType::NUMBER(7),
            TokenType::SEMICOLON,
            TokenType::EOF,
        ]
    );
    assert_eq!(tokens[1].lexeme, "answer");
}
