//! The token model: token kinds, tokens, and their mathematical view.

use vstd::prelude::*;

verus! {

/// The kind of a lexical token.
///
/// Punctuation and operator kinds carry no payload; `NUMBER` carries the
/// parsed unsigned 32-bit value of an integer literal. A `FLOAT` token's
/// value is determined by its exact lexeme (kept in the token), so the kind
/// itself carries no payload. `EOF` marks the end of the input and `ERR`
/// marks a numeric literal whose digits overflow the 32-bit integer range.
#[allow(non_camel_case_types)]
#[derive(Clone, Copy, Debug, PartialEq, Eq, Structural)]
pub enum TokenType {
    // Single-character tokens.
    LEFT_PAREN,
    RIGHT_PAREN,
    LEFT_BRACE,
    RIGHT_BRACE,
    COMMA,
    DOT,
    MINUS,
    PLUS,
    SEMICOLON,
    SLASH,
    STAR,
    // One or two character tokens.
    BANG,
    BANG_EQUAL,
    EQUAL,
    EQUAL_EQUAL,
    GREATER,
    GREATER_EQUAL,
    LESS,
    LESS_EQUAL,
    // Literals.
    IDENTIFIER,
    STRING,
    NUMBER(u32),
    FLOAT,
    // Keywords.
    AND,
    CLASS,
    ELSE,
    FALSE,
    FUN,
    FOR,
    IF,
    NIL,
    OR,
    PRINT,
    RETURN,
    SUPER,
    THIS,
    TRUE,
    VAR,
    WHILE,
    EOF,
    ERR,
}

/// A token: its kind, the exact source substring that produced it, and the
/// 1-based line number the scanner stood on when it was emitted.
#[derive(Debug, PartialEq)]
pub struct Token {
    pub token_type: TokenType,
    pub lexeme: String,
    pub line: usize,
}

/// The mathematical view of a [`Token`]: the lexeme as a character
/// sequence and the line as an unbounded natural number.
pub struct TokenV {
    pub token_type: TokenType,
    pub lexeme: Seq<char>,
    pub line: nat,
}

impl View for Token {
    type V = TokenV;

    open spec fn view(&self) -> TokenV {
        TokenV { token_type: self.token_type, lexeme: self.lexeme@, line: self.line as nat }
    }
}

impl Clone for Token {
    fn clone(&self) -> (r: Self)
        ensures
            r == *self,
    {
        Token { token_type: self.token_type, lexeme: self.lexeme.clone(), line: self.line }
    }
}

/// The views of a sequence of tokens, element by element.
pub open spec fn views(ts: Seq<Token>) -> Seq<TokenV> {
    ts.map_values(|t: Token| t@)
}

/// Pushing a token and then taking views is taking views and then pushing
/// the token's view.
pub proof fn lemma_views_push(ts: Seq<Token>, t: Token)
    ensures
        views(ts.push(t)) == views(ts).push(t@),
{
    assert(views(ts.push(t)) =~= views(ts).push(t@));
}

/// Pushing one element and then appending a tail appends the one-element
/// sequence followed by the tail.
pub proof fn lemma_push_then_append(a: Seq<TokenV>, t: TokenV, rest: Seq<TokenV>)
    ensures
        a.push(t) + rest == a + (seq![t] + rest),
{
    assert(a.push(t) + rest =~= a + (seq![t] + rest));
}

} // verus!
