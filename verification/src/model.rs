//! The mathematical model of the scan: character classes, run boundaries,
//! digit values, the keyword table, and `scan_spec`, the function from a
//! source text to the token sequence the scanner must produce.

use vstd::prelude::*;

use crate::token::{TokenType, TokenV};

verus! {

/// A decimal digit.
pub open spec fn is_digit_char(c: char) -> bool {
    '0' as u32 <= c as u32 && c as u32 <= '9' as u32
}

/// A character that may start or continue an identifier: an ASCII letter or
/// an underscore. Digits deliberately do not continue an identifier.
pub open spec fn is_ident_char(c: char) -> bool {
    ('a' as u32 <= c as u32 && c as u32 <= 'z' as u32) || ('A' as u32 <= c as u32 && c as u32
        <= 'Z' as u32) || c == '_'
}

/// A character that starts a one- or two-character operator.
pub open spec fn is_operator_start(c: char) -> bool {
    c == '!' || c == '=' || c == '<' || c == '>'
}

/// The kind of an unconditional single-character token, if `c` is one.
pub open spec fn punct_token(c: char) -> Option<TokenType> {
    if c == '(' {
        Some(TokenType::LEFT_PAREN)
    } else if c == ')' {
        Some(TokenType::RIGHT_PAREN)
    } else if c == '{' {
        Some(TokenType::LEFT_BRACE)
    } else if c == '}' {
        Some(TokenType::RIGHT_BRACE)
    } else if c == ',' {
        Some(TokenType::COMMA)
    } else if c == '.' {
        Some(TokenType::DOT)
    } else if c == '-' {
        Some(TokenType::MINUS)
    } else if c == '+' {
        Some(TokenType::PLUS)
    } else if c == ';' {
        Some(TokenType::SEMICOLON)
    } else if c == '*' {
        Some(TokenType::STAR)
    } else if c == '/' {
        Some(TokenType::SLASH)
    } else {
        None
    }
}

/// The kind of an operator token: `two` says whether the trailing `=` was
/// consumed as part of the token.
pub open spec fn operator_token(c: char, two: bool) -> TokenType {
    if c == '!' {
        if two {
            TokenType::BANG_EQUAL
        } else {
            TokenType::BANG
        }
    } else if c == '=' {
        if two {
            TokenType::EQUAL_EQUAL
        } else {
            TokenType::EQUAL
        }
    } else if c == '<' {
        if two {
            TokenType::LESS_EQUAL
        } else {
            TokenType::LESS
        }
    } else {
        if two {
            TokenType::GREATER_EQUAL
        } else {
            TokenType::GREATER
        }
    }
}

/// The kind an identifier lexeme scans to: the dedicated keyword kind for
/// each of the sixteen reserved words, `IDENTIFIER` for everything else.
pub open spec fn keyword_token(s: Seq<char>) -> TokenType {
    if s == "and"@ {
        TokenType::AND
    } else if s == "class"@ {
        TokenType::CLASS
    } else if s == "else"@ {
        TokenType::ELSE
    } else if s == "false"@ {
        TokenType::FALSE
    } else if s == "for"@ {
        TokenType::FOR
    } else if s == "fun"@ {
        TokenType::FUN
    } else if s == "if"@ {
        TokenType::IF
    } else if s == "nil"@ {
        TokenType::NIL
    } else if s == "or"@ {
        TokenType::OR
    } else if s == "print"@ {
        TokenType::PRINT
    } else if s == "return"@ {
        TokenType::RETURN
    } else if s == "super"@ {
        TokenType::SUPER
    } else if s == "this"@ {
        TokenType::THIS
    } else if s == "true"@ {
        TokenType::TRUE
    } else if s == "var"@ {
        TokenType::VAR
    } else if s == "while"@ {
        TokenType::WHILE
    } else {
        TokenType::IDENTIFIER
    }
}

/// A token value.
pub open spec fn tok(k: TokenType, lexeme: Seq<char>, line: nat) -> TokenV {
    TokenV { token_type: k, lexeme: lexeme, line: line }
}

/// The end of the run of decimal digits that starts at `i`: the first
/// position at or after `i` that does not hold a digit.
pub open spec fn digits_end(s: Seq<char>, i: int) -> int
    decreases s.len() - i
        when 0 <= i <= s.len()
{
    if i < s.len() && is_digit_char(s[i]) {
        digits_end(s, i + 1)
    } else {
        i
    }
}

/// The end of the run of identifier characters that starts at `i`.
pub open spec fn ident_end(s: Seq<char>, i: int) -> int
    decreases s.len() - i
        when 0 <= i <= s.len()
{
    if i < s.len() && is_ident_char(s[i]) {
        ident_end(s, i + 1)
    } else {
        i
    }
}

/// The first position at or after `i` that holds the character `t`, or the
/// end of the sequence if there is none.
pub open spec fn seek_char(s: Seq<char>, i: int, t: char) -> int
    decreases s.len() - i
        when 0 <= i <= s.len()
{
    if i < s.len() && s[i] != t {
        seek_char(s, i + 1, t)
    } else {
        i
    }
}

pub proof fn lemma_digits_end(s: Seq<char>, i: int)
    requires
        0 <= i <= s.len(),
    ensures
        i <= digits_end(s, i) <= s.len(),
        forall|j: int| i <= j < digits_end(s, i) ==> is_digit_char(s[j]),
        digits_end(s, i) < s.len() ==> !is_digit_char(s[digits_end(s, i)]),
    decreases s.len() - i,
{
    if i < s.len() && is_digit_char(s[i]) {
        lemma_digits_end(s, i + 1);
    }
}

pub proof fn lemma_ident_end(s: Seq<char>, i: int)
    requires
        0 <= i <= s.len(),
    ensures
        i <= ident_end(s, i) <= s.len(),
        forall|j: int| i <= j < ident_end(s, i) ==> is_ident_char(s[j]),
        ident_end(s, i) < s.len() ==> !is_ident_char(s[ident_end(s, i)]),
    decreases s.len() - i,
{
    if i < s.len() && is_ident_char(s[i]) {
        lemma_ident_end(s, i + 1);
    }
}

pub proof fn lemma_seek_char(s: Seq<char>, i: int, t: char)
    requires
        0 <= i <= s.len(),
    ensures
        i <= seek_char(s, i, t) <= s.len(),
        forall|j: int| i <= j < seek_char(s, i, t) ==> s[j] != t,
        seek_char(s, i, t) < s.len() ==> s[seek_char(s, i, t)] == t,
    decreases s.len() - i,
{
    if i < s.len() && s[i] != t {
        lemma_seek_char(s, i + 1, t);
    }
}

/// How many newline characters `s` holds between positions `i` (inclusive)
/// and `j` (exclusive).
pub open spec fn newlines_between(s: Seq<char>, i: int, j: int) -> nat
    decreases j - i
        when i <= j
{
    if i < j {
        newlines_between(s, i, j - 1) + (if s[j - 1] == '\n' {
            1nat
        } else {
            0nat
        })
    } else {
        0
    }
}

/// A span cannot hold more newlines than characters.
pub proof fn lemma_newlines_bound(s: Seq<char>, i: int, j: int)
    requires
        i <= j,
    ensures
        newlines_between(s, i, j) <= j - i,
    decreases j - i,
{
    if i < j {
        lemma_newlines_bound(s, i, j - 1);
    }
}

/// The numeric value of a decimal digit.
pub open spec fn digit_val(c: char) -> int {
    c as u32 - '0' as u32
}

/// The value of a string of decimal digits read in base ten.
pub open spec fn digits_val(s: Seq<char>) -> int
    decreases s.len(),
{
    if s.len() == 0 {
        0
    } else {
        digits_val(s.drop_last()) * 10 + digit_val(s.last())
    }
}

/// Extending a digit string by one digit multiplies its value by ten and
/// adds the new digit.
pub proof fn lemma_digits_val_step(s: Seq<char>, j: int)
    requires
        0 <= j < s.len(),
    ensures
        digits_val(s.subrange(0, j + 1)) == digits_val(s.subrange(0, j)) * 10 + digit_val(s[j]),
{
    let p = s.subrange(0, j + 1);
    assert(p.drop_last() =~= s.subrange(0, j));
    assert(p.last() == s[j]);
}

/// Once a digit prefix already exceeds the 32-bit range, the whole digit
/// string does too.
pub proof fn lemma_digits_val_overflow(s: Seq<char>, j: int)
    requires
        0 <= j <= s.len(),
        forall|k: int| 0 <= k < s.len() ==> is_digit_char(s[k]),
        digits_val(s.subrange(0, j)) > u32::MAX,
    ensures
        digits_val(s) > u32::MAX,
    decreases s.len() - j,
{
    if j == s.len() {
        assert(s.subrange(0, j) =~= s);
    } else {
        lemma_digits_val_step(s, j);
        lemma_digits_val_overflow(s, j + 1);
    }
}

/// The tokens the scanner emits from position `i` of `s` onwards, starting
/// on line `line`, paired with the line the scan ends on. The terminal
/// `EOF` token is not part of this sequence; `scan_spec` appends it.
pub open spec fn scan_from(s: Seq<char>, i: int, line: nat) -> (Seq<TokenV>, nat)
    decreases s.len() - i
        when 0 <= i <= s.len()
{
    if i >= s.len() {
        (Seq::<TokenV>::empty(), line)
    } else {
        let c = s[i];
        if c == '\n' {
            scan_from(s, i + 1, line + 1)
        } else if c == ' ' || c == '\t' || c == '\r' {
            scan_from(s, i + 1, line)
        } else if c == '/' && i + 1 < s.len() && s[i + 1] == '/' {
            // a line comment runs to just before the newline (or the end)
            proof {
                lemma_seek_char(s, i + 2, '\n');
            }
            scan_from(s, seek_char(s, i + 2, '\n'), line)
        } else if c == '"' {
            let q = seek_char(s, i + 1, '"');
            let nl = line + newlines_between(s, i + 1, q);
            proof {
                lemma_seek_char(s, i + 1, '"');
            }
            if q >= s.len() {
                // unterminated string: no token, and the input is exhausted
                (Seq::<TokenV>::empty(), nl)
            } else {
                let rest = scan_from(s, q + 1, nl);
                (seq![tok(TokenType::STRING, s.subrange(i + 1, q), nl)] + rest.0, rest.1)
            }
        } else if is_digit_char(c) {
            let d1 = digits_end(s, i + 1);
            proof {
                lemma_digits_end(s, i + 1);
            }
            if d1 + 1 < s.len() && s[d1] == '.' && is_digit_char(s[d1 + 1]) {
                let d2 = digits_end(s, d1 + 1);
                proof {
                    lemma_digits_end(s, d1 + 1);
                }
                let rest = scan_from(s, d2, line);
                (seq![tok(TokenType::FLOAT, s.subrange(i, d2), line)] + rest.0, rest.1)
            } else {
                let v = digits_val(s.subrange(i, d1));
                let k = if v <= u32::MAX {
                    TokenType::NUMBER(v as u32)
                } else {
                    TokenType::ERR
                };
                let rest = scan_from(s, d1, line);
                (seq![tok(k, s.subrange(i, d1), line)] + rest.0, rest.1)
            }
        } else if is_ident_char(c) {
            let e = ident_end(s, i + 1);
            proof {
                lemma_ident_end(s, i + 1);
            }
            let rest = scan_from(s, e, line);
            (seq![tok(keyword_token(s.subrange(i, e)), s.subrange(i, e), line)] + rest.0, rest.1)
        } else if is_operator_start(c) {
            if i + 1 < s.len() && s[i + 1] == '=' {
                let rest = scan_from(s, i + 2, line);
                (seq![tok(operator_token(c, true), s.subrange(i, i + 2), line)] + rest.0, rest.1)
            } else {
                let rest = scan_from(s, i + 1, line);
                (seq![tok(operator_token(c, false), s.subrange(i, i + 1), line)] + rest.0, rest.1)
            }
        } else {
            match punct_token(c) {
                Some(k) => {
                    let rest = scan_from(s, i + 1, line);
                    (seq![tok(k, s.subrange(i, i + 1), line)] + rest.0, rest.1)
                },
                // an invalid character is skipped and contributes no token
                None => scan_from(s, i + 1, line),
            }
        }
    }
}

/// The full token sequence for a source text: every token of the text in
/// source order, terminated by a single `EOF` token carrying the line the
/// scan ended on.
pub open spec fn scan_spec(s: Seq<char>) -> Seq<TokenV> {
    let r = scan_from(s, 0, 1);
    r.0.push(tok(TokenType::EOF, Seq::<char>::empty(), r.1))
}

/// No token that `scan_from` emits is an `EOF` token; `scan_spec` alone
/// appends one.
proof fn lemma_scan_from_no_eof(s: Seq<char>, i: int, line: nat)
    requires
        0 <= i <= s.len(),
    ensures
        forall|j: int|
            0 <= j < scan_from(s, i, line).0.len() ==> scan_from(s, i, line).0[j].token_type
                != TokenType::EOF,
    decreases s.len() - i,
{
    if i < s.len() {
        let c = s[i];
        if c == '\n' {
            lemma_scan_from_no_eof(s, i + 1, line + 1);
        } else if c == ' ' || c == '\t' || c == '\r' {
            lemma_scan_from_no_eof(s, i + 1, line);
        } else if c == '/' && i + 1 < s.len() && s[i + 1] == '/' {
            lemma_seek_char(s, i + 2, '\n');
            lemma_scan_from_no_eof(s, seek_char(s, i + 2, '\n'), line);
        } else if c == '"' {
            lemma_seek_char(s, i + 1, '"');
            let q = seek_char(s, i + 1, '"');
            if q < s.len() {
                lemma_scan_from_no_eof(s, q + 1, line + newlines_between(s, i + 1, q));
            }
        } else if is_digit_char(c) {
            lemma_digits_end(s, i + 1);
            let d1 = digits_end(s, i + 1);
            if d1 + 1 < s.len() && s[d1] == '.' && is_digit_char(s[d1 + 1]) {
                lemma_digits_end(s, d1 + 1);
                lemma_scan_from_no_eof(s, digits_end(s, d1 + 1), line);
            } else {
                lemma_scan_from_no_eof(s, d1, line);
            }
        } else if is_ident_char(c) {
            lemma_ident_end(s, i + 1);
            lemma_scan_from_no_eof(s, ident_end(s, i + 1), line);
        } else if is_operator_start(c) {
            if i + 1 < s.len() && s[i + 1] == '=' {
                lemma_scan_from_no_eof(s, i + 2, line);
            } else {
                lemma_scan_from_no_eof(s, i + 1, line);
            }
        } else {
            lemma_scan_from_no_eof(s, i + 1, line);
        }
    }
}

/// Every scan is terminated: the token sequence is never empty, its last
/// element is the `EOF` token, and `EOF` occurs nowhere else in it.
pub proof fn lemma_scan_terminated(s: Seq<char>)
    ensures
        scan_spec(s).len() >= 1,
        scan_spec(s).last().token_type == TokenType::EOF,
        forall|j: int|
            0 <= j < scan_spec(s).len() - 1 ==> scan_spec(s)[j].token_type != TokenType::EOF,
{
    lemma_scan_from_no_eof(s, 0, 1);
}

/// Scanning is deterministic: the token sequence is a function of the
/// source text alone, so two scans of the same buffer agree.
pub proof fn lemma_scan_deterministic(s: Seq<char>, r1: Seq<TokenV>, r2: Seq<TokenV>)
    requires
        r1 == scan_spec(s),
        r2 == scan_spec(s),
    ensures
        r1 == r2,
{
}

/// Two-character operators are scanned greedily: an operator character
/// followed by `=` yields the single two-character operator token, and
/// otherwise the one-character operator token alone.
pub proof fn lemma_operator_greedy(s: Seq<char>, i: int, line: nat)
    requires
        0 <= i < s.len(),
        is_operator_start(s[i]),
    ensures
        i + 1 < s.len() && s[i + 1] == '=' ==> scan_from(s, i, line).0 == seq![
            tok(operator_token(s[i], true), s.subrange(i, i + 2), line),
        ] + scan_from(s, i + 2, line).0,
        !(i + 1 < s.len() && s[i + 1] == '=') ==> scan_from(s, i, line).0 == seq![
            tok(operator_token(s[i], false), s.subrange(i, i + 1), line),
        ] + scan_from(s, i + 1, line).0,
{
}

/// The keyword table is exact: each of the sixteen reserved words maps to
/// its dedicated keyword kind, never to `IDENTIFIER`.
pub proof fn lemma_keyword_table()
    ensures
        keyword_token("and"@) == TokenType::AND,
        keyword_token("class"@) == TokenType::CLASS,
        keyword_token("else"@) == TokenType::ELSE,
        keyword_token("false"@) == TokenType::FALSE,
        keyword_token("for"@) == TokenType::FOR,
        keyword_token("fun"@) == TokenType::FUN,
        keyword_token("if"@) == TokenType::IF,
        keyword_token("nil"@) == TokenType::NIL,
        keyword_token("or"@) == TokenType::OR,
        keyword_token("print"@) == TokenType::PRINT,
        keyword_token("return"@) == TokenType::RETURN,
        keyword_token("super"@) == TokenType::SUPER,
        keyword_token("this"@) == TokenType::THIS,
        keyword_token("true"@) == TokenType::TRUE,
        keyword_token("var"@) == TokenType::VAR,
        keyword_token("while"@) == TokenType::WHILE,
{
    reveal_strlit("and");
    reveal_strlit("class");
    reveal_strlit("else");
    reveal_strlit("false");
    reveal_strlit("for");
    reveal_strlit("fun");
    reveal_strlit("if");
    reveal_strlit("nil");
    reveal_strlit("or");
    reveal_strlit("print");
    reveal_strlit("return");
    reveal_strlit("super");
    reveal_strlit("this");
    reveal_strlit("true");
    reveal_strlit("var");
    reveal_strlit("while");
    assert("and"@.len() == 3 && "class"@.len() == 5 && "else"@.len() == 4 && "false"@.len() == 5);
    assert("for"@.len() == 3 && "fun"@.len() == 3 && "if"@.len() == 2 && "nil"@.len() == 3);
    assert("or"@.len() == 2 && "print"@.len() == 5 && "return"@.len() == 6 && "super"@.len() == 5);
    assert("this"@.len() == 4 && "true"@.len() == 4 && "var"@.len() == 3 && "while"@.len() == 5);
    assert("class"@[0] == 'c' && "false"@[0] == 'f' && "print"@[0] == 'p' && "super"@[0] == 's'
        && "while"@[0] == 'w');
    assert("for"@[1] == 'o' && "fun"@[1] == 'u' && "and"@[0] == 'a' && "nil"@[0] == 'n'
        && "var"@[0] == 'v');
    assert("if"@[0] == 'i' && "or"@[0] == 'o');
    assert("this"@[1] == 'h' && "true"@[1] == 'r' && "else"@[0] == 'e');
}

} // verus!
