//! The scanner: a single sequential pass over a source buffer that emits
//! the token sequence `scan_spec` describes.

use vstd::prelude::*;

use crate::model::{
    digits_end, digits_val, ident_end, is_digit_char, is_ident_char, keyword_token,
    lemma_digits_end, lemma_digits_val_overflow, lemma_digits_val_step, lemma_ident_end,
    lemma_newlines_bound, lemma_seek_char, newlines_between, scan_from, scan_spec, seek_char, tok,
};
pub use crate::token::{Token, TokenType};
use crate::token::TokenV;
use crate::token::{lemma_push_then_append, lemma_views_push, views};

verus! {

/// The scanner's state: the source buffer, the token under construction
/// (`start`..`current`, both character offsets), the current 1-based line,
/// and the tokens emitted so far.
#[derive(Debug)]
pub struct Scanner {
    pub source: String,
    pub tokens: Vec<Token>,
    pub start: usize,
    pub current: usize,
    pub line: usize,
}

impl Scanner {
    /// The cursor stays inside the buffer, the line counter starts at one
    /// and can only have grown by consumed newlines, and the buffer is
    /// small enough that the line counter cannot wrap.
    pub open spec fn wf(self) -> bool {
        &&& self.current <= self.source@.len()
        &&& 1 <= self.line
        &&& self.line <= 1 + self.current
        &&& self.source@.len() < usize::MAX
    }
}

/// Whether the cursor has reached the end of the buffer.
fn at_end(scanner: &Scanner) -> (r: bool)
    ensures
        r == (scanner.current >= scanner.source@.len()),
{
    scanner.current >= scanner.source.as_str().unicode_len()
}

/// Consume and return the character under the cursor.
fn advance(scanner: &mut Scanner) -> (c: char)
    requires
        old(scanner).current < old(scanner).source@.len(),
        old(scanner).source@.len() < usize::MAX,
    ensures
        c == old(scanner).source@[old(scanner).current as int],
        final(scanner).source == old(scanner).source,
        final(scanner).tokens == old(scanner).tokens,
        final(scanner).start == old(scanner).start,
        final(scanner).line == old(scanner).line,
        final(scanner).current == old(scanner).current + 1,
{
    let c = scanner.source.as_str().get_char(scanner.current);
    scanner.current = scanner.current + 1;
    c
}

/// Look at the character under the cursor without consuming it; a NUL
/// stands in for the end of the buffer.
fn peek(scanner: &Scanner) -> (c: char)
    requires
        scanner.current <= scanner.source@.len(),
    ensures
        c == (if scanner.current < scanner.source@.len() {
            scanner.source@[scanner.current as int]
        } else {
            '\0'
        }),
{
    if scanner.current < scanner.source.as_str().unicode_len() {
        scanner.source.as_str().get_char(scanner.current)
    } else {
        '\0'
    }
}

/// Look one character past the cursor without consuming anything.
fn peek_next(scanner: &Scanner) -> (c: char)
    requires
        scanner.current <= scanner.source@.len(),
        scanner.source@.len() < usize::MAX,
    ensures
        c == (if scanner.current + 1 < scanner.source@.len() {
            scanner.source@[scanner.current as int + 1]
        } else {
            '\0'
        }),
{
    let n = scanner.source.as_str().unicode_len();
    if scanner.current + 1 < n {
        scanner.source.as_str().get_char(scanner.current + 1)
    } else {
        '\0'
    }
}

/// Consume the character under the cursor only if it is `next_char`.
fn next(next_char: char, scanner: &mut Scanner) -> (r: bool)
    requires
        old(scanner).wf(),
    ensures
        final(scanner).source == old(scanner).source,
        final(scanner).tokens == old(scanner).tokens,
        final(scanner).start == old(scanner).start,
        final(scanner).line == old(scanner).line,
        r == (old(scanner).current < old(scanner).source@.len() && old(scanner).source@[old(
            scanner,
        ).current as int] == next_char),
        r ==> final(scanner).current == old(scanner).current + 1,
        !r ==> final(scanner).current == old(scanner).current,
        final(scanner).wf(),
{
    if at_end(scanner) {
        return false;
    }
    if peek(scanner) == next_char {
        scanner.current = scanner.current + 1;
        true
    } else {
        false
    }
}

/// Append a token to the output sequence.
fn add_token(token: Token, scanner: &mut Scanner)
    ensures
        final(scanner).source == old(scanner).source,
        final(scanner).start == old(scanner).start,
        final(scanner).current == old(scanner).current,
        final(scanner).line == old(scanner).line,
        final(scanner).tokens@ == old(scanner).tokens@.push(token),
{
    scanner.tokens.push(token)
}

/// Whether `c` may appear in an identifier: an ASCII letter or underscore.
pub fn is_alphanumeric(c: char) -> (r: bool)
    ensures
        r == is_ident_char(c),
{
    let u = c as u32;
    ('a' as u32 <= u && u <= 'z' as u32) || ('A' as u32 <= u && u <= 'Z' as u32) || c == '_'
}

/// Whether `c` is a decimal digit.
fn is_digit(c: char) -> (r: bool)
    ensures
        r == is_digit_char(c),
{
    let u = c as u32;
    '0' as u32 <= u && u <= '9' as u32
}

/// Emit a token of kind `k` whose lexeme is the source text between
/// `lo` and `hi`, at the scanner's current line.
fn emit(scanner: &mut Scanner, k: TokenType, lo: usize, hi: usize)
    requires
        old(scanner).wf(),
        lo <= hi <= old(scanner).source@.len(),
    ensures
        final(scanner).source == old(scanner).source,
        final(scanner).start == old(scanner).start,
        final(scanner).current == old(scanner).current,
        final(scanner).line == old(scanner).line,
        final(scanner).wf(),
        views(final(scanner).tokens@) == views(old(scanner).tokens@).push(
            tok(k, old(scanner).source@.subrange(lo as int, hi as int), old(scanner).line as nat),
        ),
{
    let lexeme = scanner.source.as_str().substring_char(lo, hi).to_string();
    let token = Token { token_type: k, lexeme, line: scanner.line };
    proof {
        lemma_views_push(scanner.tokens@, token);
    }
    add_token(token, scanner);
}

/// Parse a string of decimal digits as an unsigned 32-bit integer,
/// reporting overflow instead of wrapping.
fn parse_u32_digits(s: &str) -> (r: Option<u32>)
    requires
        forall|j: int| 0 <= j < s@.len() ==> is_digit_char(s@[j]),
    ensures
        r is Some ==> digits_val(s@) <= u32::MAX && r->0 == digits_val(s@),
        r is None ==> digits_val(s@) > u32::MAX,
{
    let n = s.unicode_len();
    let mut acc: u32 = 0;
    let mut j: usize = 0;
    proof {
        assert(s@.subrange(0, 0) =~= Seq::<char>::empty());
    }
    while j < n
        invariant
            j <= n,
            n == s@.len(),
            forall|k: int| 0 <= k < s@.len() ==> is_digit_char(s@[k]),
            acc == digits_val(s@.subrange(0, j as int)),
        decreases n - j,
    {
        let c = s.get_char(j);
        let d: u32 = c as u32 - '0' as u32;
        let wide: u64 = (acc as u64) * 10 + (d as u64);
        proof {
            lemma_digits_val_step(s@, j as int);
        }
        if wide > (u32::MAX as u64) {
            proof {
                lemma_digits_val_overflow(s@, j as int + 1);
            }
            return None;
        }
        acc = wide as u32;
        j = j + 1;
    }
    proof {
        assert(s@.subrange(0, n as int) =~= s@);
    }
    Some(acc)
}

/// Character-by-character string equality.
fn str_eq(a: &str, b: &str) -> (r: bool)
    ensures
        r == (a@ == b@),
{
    let na = a.unicode_len();
    let nb = b.unicode_len();
    if na != nb {
        return false;
    }
    let mut j: usize = 0;
    while j < na
        invariant
            j <= na,
            na == a@.len(),
            na == b@.len(),
            forall|k: int| 0 <= k < j ==> a@[k] == b@[k],
        decreases na - j,
    {
        if a.get_char(j) != b.get_char(j) {
            return false;
        }
        j = j + 1;
    }
    proof {
        assert(a@ =~= b@);
    }
    true
}

/// Look an identifier up in the table of the sixteen reserved words.
fn keyword_lookup(id: &str) -> (r: TokenType)
    ensures
        r == keyword_token(id@),
{
    if str_eq(id, "and") {
        TokenType::AND
    } else if str_eq(id, "class") {
        TokenType::CLASS
    } else if str_eq(id, "else") {
        TokenType::ELSE
    } else if str_eq(id, "false") {
        TokenType::FALSE
    } else if str_eq(id, "for") {
        TokenType::FOR
    } else if str_eq(id, "fun") {
        TokenType::FUN
    } else if str_eq(id, "if") {
        TokenType::IF
    } else if str_eq(id, "nil") {
        TokenType::NIL
    } else if str_eq(id, "or") {
        TokenType::OR
    } else if str_eq(id, "print") {
        TokenType::PRINT
    } else if str_eq(id, "return") {
        TokenType::RETURN
    } else if str_eq(id, "super") {
        TokenType::SUPER
    } else if str_eq(id, "this") {
        TokenType::THIS
    } else if str_eq(id, "true") {
        TokenType::TRUE
    } else if str_eq(id, "var") {
        TokenType::VAR
    } else if str_eq(id, "while") {
        TokenType::WHILE
    } else {
        TokenType::IDENTIFIER
    }
}

/// Scan the rest of an identifier whose first character has been consumed,
/// and emit the identifier or keyword token.
fn identifier(scanner: &mut Scanner)
    requires
        old(scanner).wf(),
        old(scanner).current == old(scanner).start + 1,
        old(scanner).start < old(scanner).source@.len(),
        is_ident_char(old(scanner).source@[old(scanner).start as int]),
    ensures
        final(scanner).wf(),
        final(scanner).source == old(scanner).source,
        final(scanner).start == old(scanner).start,
        final(scanner).line == old(scanner).line,
        ({
            let s = old(scanner).source@;
            let st = old(scanner).start as int;
            let e = ident_end(s, st + 1);
            &&& final(scanner).current == e
            &&& views(final(scanner).tokens@) == views(old(scanner).tokens@).push(
                tok(keyword_token(s.subrange(st, e)), s.subrange(st, e), old(scanner).line as nat),
            )
        }),
{
    let ghost s = scanner.source@;
    let ghost c0 = scanner.current as int;
    proof {
        lemma_ident_end(s, c0);
    }
    while is_alphanumeric(peek(scanner))
        invariant
            scanner.wf(),
            scanner.source == old(scanner).source,
            scanner.tokens == old(scanner).tokens,
            scanner.start == old(scanner).start,
            scanner.line == old(scanner).line,
            c0 <= scanner.current <= s.len(),
            s == scanner.source@,
            ident_end(s, c0) == ident_end(s, scanner.current as int),
        decreases s.len() - scanner.current,
    {
        advance(scanner);
    }
    proof {
        assert(ident_end(s, scanner.current as int) == scanner.current as int);
    }
    let kind = keyword_lookup(scanner.source.as_str().substring_char(scanner.start, scanner.current));
    let lo = scanner.start;
    let hi = scanner.current;
    emit(scanner, kind, lo, hi);
}

/// Scan the body of a string literal whose opening quote has been
/// consumed. On an embedded newline the line counter grows; on a closing
/// quote the token is emitted with the text between the quotes; at the end
/// of the input the literal is abandoned and no token is emitted.
fn string(scanner: &mut Scanner)
    requires
        old(scanner).wf(),
        old(scanner).current == old(scanner).start + 1,
        old(scanner).start < old(scanner).source@.len(),
    ensures
        final(scanner).wf(),
        final(scanner).source == old(scanner).source,
        final(scanner).start == old(scanner).start,
        ({
            let s = old(scanner).source@;
            let c0 = old(scanner).current as int;
            let q = seek_char(s, c0, '"');
            let nl = old(scanner).line as nat + newlines_between(s, c0, q);
            &&& final(scanner).line == nl
            &&& (if q >= s.len() {
                final(scanner).current == s.len() && final(scanner).tokens == old(scanner).tokens
            } else {
                final(scanner).current == q + 1 && views(final(scanner).tokens@) == views(
                    old(scanner).tokens@,
                ).push(tok(TokenType::STRING, s.subrange(c0, q), nl))
            })
        }),
{
    let ghost s = scanner.source@;
    let ghost c0 = scanner.current as int;
    proof {
        lemma_seek_char(s, c0, '"');
    }
    while peek(scanner) != '"' && !at_end(scanner)
        invariant
            scanner.wf(),
            scanner.source == old(scanner).source,
            scanner.tokens == old(scanner).tokens,
            scanner.start == old(scanner).start,
            c0 <= scanner.current <= s.len(),
            s == scanner.source@,
            seek_char(s, c0, '"') == seek_char(s, scanner.current as int, '"'),
            scanner.line as nat == old(scanner).line as nat + newlines_between(
                s,
                c0,
                scanner.current as int,
            ),
        decreases s.len() - scanner.current,
    {
        proof {
            lemma_newlines_bound(s, c0, scanner.current as int);
        }
        if peek(scanner) == '\n' {
            scanner.line = scanner.line + 1;
        }
        advance(scanner);
    }
    proof {
        assert(seek_char(s, scanner.current as int, '"') == scanner.current as int);
    }
    if at_end(scanner) {
        // unterminated string: abandon the literal, no token
        return;
    }
    advance(scanner);
    let lo = scanner.start + 1;
    let hi = scanner.current - 1;
    emit(scanner, TokenType::STRING, lo, hi);
}

/// Scan the rest of a numeric literal whose first digit has been consumed:
/// a run of digits, optionally followed by a `.` and a second digit run
/// when the `.` is itself followed by a digit. Emits `NUMBER`, `FLOAT`, or
/// `ERR` when the integer digits overflow the 32-bit range.
fn number(scanner: &mut Scanner)
    requires
        old(scanner).wf(),
        old(scanner).current == old(scanner).start + 1,
        old(scanner).start < old(scanner).source@.len(),
        is_digit_char(old(scanner).source@[old(scanner).start as int]),
    ensures
        final(scanner).wf(),
        final(scanner).source == old(scanner).source,
        final(scanner).start == old(scanner).start,
        final(scanner).line == old(scanner).line,
        ({
            let s = old(scanner).source@;
            let st = old(scanner).start as int;
            let d1 = digits_end(s, st + 1);
            if d1 + 1 < s.len() && s[d1] == '.' && is_digit_char(s[d1 + 1]) {
                let d2 = digits_end(s, d1 + 1);
                &&& final(scanner).current == d2
                &&& views(final(scanner).tokens@) == views(old(scanner).tokens@).push(
                    tok(TokenType::FLOAT, s.subrange(st, d2), old(scanner).line as nat),
                )
            } else {
                let v = digits_val(s.subrange(st, d1));
                let k = if v <= u32::MAX {
                    TokenType::NUMBER(v as u32)
                } else {
                    TokenType::ERR
                };
                &&& final(scanner).current == d1
                &&& views(final(scanner).tokens@) == views(old(scanner).tokens@).push(
                    tok(k, s.subrange(st, d1), old(scanner).line as nat),
                )
            }
        }),
{
    let ghost s = scanner.source@;
    let ghost st = scanner.start as int;
    proof {
        lemma_digits_end(s, st + 1);
    }
    while is_digit(peek(scanner))
        invariant
            scanner.wf(),
            scanner.source == old(scanner).source,
            scanner.tokens == old(scanner).tokens,
            scanner.start == old(scanner).start,
            scanner.line == old(scanner).line,
            st + 1 <= scanner.current <= s.len(),
            s == scanner.source@,
            digits_end(s, st + 1) == digits_end(s, scanner.current as int),
        decreases s.len() - scanner.current,
    {
        advance(scanner);
    }
    proof {
        assert(digits_end(s, scanner.current as int) == scanner.current as int);
    }
    let ghost d1 = digits_end(s, st + 1);
    if peek(scanner) == '.' && is_digit(peek_next(scanner)) {
        advance(scanner);
        proof {
            lemma_digits_end(s, d1 + 1);
        }
        while is_digit(peek(scanner))
            invariant
                scanner.wf(),
                scanner.source == old(scanner).source,
                scanner.tokens == old(scanner).tokens,
                scanner.start == old(scanner).start,
                scanner.line == old(scanner).line,
                d1 + 1 <= scanner.current <= s.len(),
                s == scanner.source@,
                digits_end(s, d1 + 1) == digits_end(s, scanner.current as int),
            decreases s.len() - scanner.current,
        {
            advance(scanner);
        }
        proof {
            assert(digits_end(s, scanner.current as int) == scanner.current as int);
        }
        let lo = scanner.start;
        let hi = scanner.current;
        emit(scanner, TokenType::FLOAT, lo, hi);
    } else {
        let sub = scanner.source.as_str().substring_char(scanner.start, scanner.current);
        proof {
            assert forall|j: int| 0 <= j < sub@.len() implies is_digit_char(sub@[j]) by {
                assert(sub@[j] == s[st + j]);
            }
        }
        let parsed = parse_u32_digits(sub);
        let k = match parsed {
            Some(v) => TokenType::NUMBER(v),
            None => TokenType::ERR,
        };
        let lo = scanner.start;
        let hi = scanner.current;
        emit(scanner, k, lo, hi);
    }
}

/// Scan one token starting at the cursor (which the caller has aligned
/// with `start`), or consume whitespace, a newline, a comment, or an
/// invalid character without emitting anything.
fn scan_token(scanner: &mut Scanner)
    requires
        old(scanner).wf(),
        old(scanner).start == old(scanner).current,
        old(scanner).current < old(scanner).source@.len(),
    ensures
        final(scanner).wf(),
        final(scanner).source == old(scanner).source,
        old(scanner).current < final(scanner).current,
        ({
            let pre = scan_from(
                old(scanner).source@,
                old(scanner).current as int,
                old(scanner).line as nat,
            );
            let post = scan_from(
                final(scanner).source@,
                final(scanner).current as int,
                final(scanner).line as nat,
            );
            &&& views(final(scanner).tokens@) + post.0 == views(old(scanner).tokens@) + pre.0
            &&& post.1 == pre.1
        }),
{
    let ghost s = scanner.source@;
    let ghost i = scanner.current as int;
    let ghost line0 = scanner.line as nat;
    let ghost toks0 = scanner.tokens@;
    let c = advance(scanner);
    if c == '(' {
        let lo = scanner.start;
        let hi = scanner.current;
        emit(scanner, TokenType::LEFT_PAREN, lo, hi);
        proof {
            lemma_push_then_append(
                views(toks0),
                tok(TokenType::LEFT_PAREN, s.subrange(i, i + 1), line0),
                scan_from(s, i + 1, line0).0,
            );
        }
    } else if c == ')' {
        let lo = scanner.start;
        let hi = scanner.current;
        emit(scanner, TokenType::RIGHT_PAREN, lo, hi);
        proof {
            lemma_push_then_append(
                views(toks0),
                tok(TokenType::RIGHT_PAREN, s.subrange(i, i + 1), line0),
                scan_from(s, i + 1, line0).0,
            );
        }
    } else if c == '{' {
        let lo = scanner.start;
        let hi = scanner.current;
        emit(scanner, TokenType::LEFT_BRACE, lo, hi);
        proof {
            lemma_push_then_append(
                views(toks0),
                tok(TokenType::LEFT_BRACE, s.subrange(i, i + 1), line0),
                scan_from(s, i + 1, line0).0,
            );
        }
    } else if c == '}' {
        let lo = scanner.start;
        let hi = scanner.current;
        emit(scanner, TokenType::RIGHT_BRACE, lo, hi);
        proof {
            lemma_push_then_append(
                views(toks0),
                tok(TokenType::RIGHT_BRACE, s.subrange(i, i + 1), line0),
                scan_from(s, i + 1, line0).0,
            );
        }
    } else if c == ',' {
        let lo = scanner.start;
        let hi = scanner.current;
        emit(scanner, TokenType::COMMA, lo, hi);
        proof {
            lemma_push_then_append(
                views(toks0),
                tok(TokenType::COMMA, s.subrange(i, i + 1), line0),
                scan_from(s, i + 1, line0).0,
            );
        }
    } else if c == '.' {
        let lo = scanner.start;
        let hi = scanner.current;
        emit(scanner, TokenType::DOT, lo, hi);
        proof {
            lemma_push_then_append(
                views(toks0),
                tok(TokenType::DOT, s.subrange(i, i + 1), line0),
                scan_from(s, i + 1, line0).0,
            );
        }
    } else if c == '-' {
        let lo = scanner.start;
        let hi = scanner.current;
        emit(scanner, TokenType::MINUS, lo, hi);
        proof {
            lemma_push_then_append(
                views(toks0),
                tok(TokenType::MINUS, s.subrange(i, i + 1), line0),
                scan_from(s, i + 1, line0).0,
            );
        }
    } else if c == '+' {
        let lo = scanner.start;
        let hi = scanner.current;
        emit(scanner, TokenType::PLUS, lo, hi);
        proof {
            lemma_push_then_append(
                views(toks0),
                tok(TokenType::PLUS, s.subrange(i, i + 1), line0),
                scan_from(s, i + 1, line0).0,
            );
        }
    } else if c == ';' {
        let lo = scanner.start;
        let hi = scanner.current;
        emit(scanner, TokenType::SEMICOLON, lo, hi);
        proof {
            lemma_push_then_append(
                views(toks0),
                tok(TokenType::SEMICOLON, s.subrange(i, i + 1), line0),
                scan_from(s, i + 1, line0).0,
            );
        }
    } else if c == '*' {
        let lo = scanner.start;
        let hi = scanner.current;
        emit(scanner, TokenType::STAR, lo, hi);
        proof {
            lemma_push_then_append(
                views(toks0),
                tok(TokenType::STAR, s.subrange(i, i + 1), line0),
                scan_from(s, i + 1, line0).0,
            );
        }
    } else if c == '!' {
        if next('=', scanner) {
            let lo = scanner.start;
            let hi = scanner.current;
            emit(scanner, TokenType::BANG_EQUAL, lo, hi);
            proof {
                lemma_push_then_append(
                    views(toks0),
                    tok(TokenType::BANG_EQUAL, s.subrange(i, i + 2), line0),
                    scan_from(s, i + 2, line0).0,
                );
            }
        } else {
            let lo = scanner.start;
            let hi = scanner.current;
            emit(scanner, TokenType::BANG, lo, hi);
            proof {
                lemma_push_then_append(
                    views(toks0),
                    tok(TokenType::BANG, s.subrange(i, i + 1), line0),
                    scan_from(s, i + 1, line0).0,
                );
            }
        }
    } else if c == '=' {
        if next('=', scanner) {
            let lo = scanner.start;
            let hi = scanner.current;
            emit(scanner, TokenType::EQUAL_EQUAL, lo, hi);
            proof {
                lemma_push_then_append(
                    views(toks0),
                    tok(TokenType::EQUAL_EQUAL, s.subrange(i, i + 2), line0),
                    scan_from(s, i + 2, line0).0,
                );
            }
        } else {
            let lo = scanner.start;
            let hi = scanner.current;
            emit(scanner, TokenType::EQUAL, lo, hi);
            proof {
                lemma_push_then_append(
                    views(toks0),
                    tok(TokenType::EQUAL, s.subrange(i, i + 1), line0),
                    scan_from(s, i + 1, line0).0,
                );
            }
        }
    } else if c == '<' {
        if next('=', scanner) {
            let lo = scanner.start;
            let hi = scanner.current;
            emit(scanner, TokenType::LESS_EQUAL, lo, hi);
            proof {
                lemma_push_then_append(
                    views(toks0),
                    tok(TokenType::LESS_EQUAL, s.subrange(i, i + 2), line0),
                    scan_from(s, i + 2, line0).0,
                );
            }
        } else {
            let lo = scanner.start;
            let hi = scanner.current;
            emit(scanner, TokenType::LESS, lo, hi);
            proof {
                lemma_push_then_append(
                    views(toks0),
                    tok(TokenType::LESS, s.subrange(i, i + 1), line0),
                    scan_from(s, i + 1, line0).0,
                );
            }
        }
    } else if c == '>' {
        if next('=', scanner) {
            let lo = scanner.start;
            let hi = scanner.current;
            emit(scanner, TokenType::GREATER_EQUAL, lo, hi);
            proof {
                lemma_push_then_append(
                    views(toks0),
                    tok(TokenType::GREATER_EQUAL, s.subrange(i, i + 2), line0),
                    scan_from(s, i + 2, line0).0,
                );
            }
        } else {
            let lo = scanner.start;
            let hi = scanner.current;
            emit(scanner, TokenType::GREATER, lo, hi);
            proof {
                lemma_push_then_append(
                    views(toks0),
                    tok(TokenType::GREATER, s.subrange(i, i + 1), line0),
                    scan_from(s, i + 1, line0).0,
                );
            }
        }
    } else if c == '/' {
        if next('/', scanner) {
            proof {
                lemma_seek_char(s, i + 2, '\n');
            }
            while peek(scanner) != '\n' && !at_end(scanner)
                invariant
                    scanner.wf(),
                    scanner.source == old(scanner).source,
                    scanner.tokens == old(scanner).tokens,
                    scanner.start == old(scanner).start,
                    scanner.line == old(scanner).line,
                    i + 2 <= scanner.current <= s.len(),
                    s == scanner.source@,
                    seek_char(s, i + 2, '\n') == seek_char(s, scanner.current as int, '\n'),
                decreases s.len() - scanner.current,
            {
                advance(scanner);
            }
            proof {
                assert(seek_char(s, scanner.current as int, '\n') == scanner.current as int);
            }
        } else {
            let lo = scanner.start;
            let hi = scanner.current;
            emit(scanner, TokenType::SLASH, lo, hi);
            proof {
                lemma_push_then_append(
                    views(toks0),
                    tok(TokenType::SLASH, s.subrange(i, i + 1), line0),
                    scan_from(s, i + 1, line0).0,
                );
            }
        }
    } else if c == '"' {
        string(scanner);
        proof {
            lemma_seek_char(s, i + 1, '"');
            let q = seek_char(s, i + 1, '"');
            let nl = line0 + newlines_between(s, i + 1, q);
            if q < s.len() {
                lemma_push_then_append(
                    views(toks0),
                    tok(TokenType::STRING, s.subrange(i + 1, q), nl),
                    scan_from(s, q + 1, nl).0,
                );
            } else {
                assert(views(scanner.tokens@) + scan_from(s, scanner.current as int, scanner.line as nat).0
                    =~= views(toks0) + scan_from(s, i, line0).0);
            }
        }
    } else if c == '\n' {
        scanner.line = scanner.line + 1;
    } else if c == ' ' || c == '\t' || c == '\r' {
        // whitespace: no token
    } else if is_digit(c) {
        number(scanner);
        proof {
            lemma_digits_end(s, i + 1);
            let d1 = digits_end(s, i + 1);
            if d1 + 1 < s.len() && s[d1] == '.' && is_digit_char(s[d1 + 1]) {
                lemma_digits_end(s, d1 + 1);
                let d2 = digits_end(s, d1 + 1);
                lemma_push_then_append(
                    views(toks0),
                    tok(TokenType::FLOAT, s.subrange(i, d2), line0),
                    scan_from(s, d2, line0).0,
                );
            } else {
                let v = digits_val(s.subrange(i, d1));
                let k = if v <= u32::MAX {
                    TokenType::NUMBER(v as u32)
                } else {
                    TokenType::ERR
                };
                lemma_push_then_append(
                    views(toks0),
                    tok(k, s.subrange(i, d1), line0),
                    scan_from(s, d1, line0).0,
                );
            }
        }
    } else if is_alphanumeric(c) {
        identifier(scanner);
        proof {
            lemma_ident_end(s, i + 1);
            let e = ident_end(s, i + 1);
            lemma_push_then_append(
                views(toks0),
                tok(keyword_token(s.subrange(i, e)), s.subrange(i, e), line0),
                scan_from(s, e, line0).0,
            );
        }
    } else {
        // an invalid character: reported nowhere, skipped, no token
    }
}

/// Scan the rest of the buffer, append the terminal `EOF` token, and
/// return a copy of the whole token sequence.
pub fn scan_tokens(scanner: &mut Scanner) -> (r: Vec<Token>)
    requires
        old(scanner).wf(),
    ensures
        final(scanner).source == old(scanner).source,
        ({
            let full = scan_from(
                old(scanner).source@,
                old(scanner).current as int,
                old(scanner).line as nat,
            );
            let all = views(old(scanner).tokens@) + full.0.push(
                tok(TokenType::EOF, Seq::<char>::empty(), full.1),
            );
            &&& views(final(scanner).tokens@) == all
            &&& views(r@) == all
        }),
{
    let ghost s = scanner.source@;
    let ghost full = scan_from(s, scanner.current as int, scanner.line as nat);
    while !at_end(scanner)
        invariant
            scanner.wf(),
            scanner.source == old(scanner).source,
            s == scanner.source@,
            views(scanner.tokens@) + scan_from(s, scanner.current as int, scanner.line as nat).0
                == views(old(scanner).tokens@) + full.0,
            scan_from(s, scanner.current as int, scanner.line as nat).1 == full.1,
        decreases s.len() - scanner.current,
    {
        scanner.start = scanner.current;
        scan_token(scanner);
    }
    let ghost eof_tok = tok(TokenType::EOF, Seq::<char>::empty(), full.1);
    proof {
        assert(scan_from(s, scanner.current as int, scanner.line as nat).0
            =~= Seq::<TokenV>::empty());
        assert(views(scanner.tokens@) + Seq::<TokenV>::empty() =~= views(scanner.tokens@));
    }
    let line = scanner.line;
    let eof = Token { token_type: TokenType::EOF, lexeme: String::new(), line };
    proof {
        lemma_views_push(scanner.tokens@, eof);
        assert((views(old(scanner).tokens@) + full.0).push(eof_tok) =~= views(
            old(scanner).tokens@,
        ) + full.0.push(eof_tok));
    }
    add_token(eof, scanner);
    let r = scanner.tokens.clone();
    proof {
        assert(views(r@) =~= views(scanner.tokens@));
    }
    r
}

/// Scan a complete source text into its token sequence: every token of the
/// text in source order, terminated by a single `EOF` token.
pub fn scan(source: String) -> (r: Vec<Token>)
    requires
        source@.len() < usize::MAX,
    ensures
        views(r@) == scan_spec(source@),
{
    let mut scanner = Scanner { source, tokens: Vec::new(), start: 0, current: 0, line: 1 };
    let r = scan_tokens(&mut scanner);
    proof {
        assert(views(Seq::<Token>::empty()) =~= Seq::<TokenV>::empty());
        assert(Seq::<TokenV>::empty() + scan_from(scanner.source@, 0, 1).0.push(
            tok(TokenType::EOF, Seq::<char>::empty(), scan_from(scanner.source@, 0, 1).1),
        ) =~= scan_spec(scanner.source@));
    }
    r
}

} // verus!
