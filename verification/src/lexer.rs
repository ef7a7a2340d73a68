use vstd::prelude::*;

use crate::bytes::{append_range, copy_range};

verus! {

/// The kinds of token the lexer produces.
///
/// `LeftBrace`/`RightBrace` are `[`/`]` and `LeftBracket`/`RightBracket`
/// are `{`/`}`.
#[derive(Copy, Clone, Debug, PartialEq, Eq, Structural)]
pub enum Token {
    Bool,
    Colon,
    Comma,
    Eof,
    Error,
    LeftBrace,
    LeftBracket,
    Null,
    RightBrace,
    RightBracket,
    Integer,
    Double,
    String,
    StringWithEscapes,
    Comment,
}

/// Why the lexer reported `Token::Error`.
#[derive(Copy, Clone, Debug, PartialEq, Eq, Structural)]
pub enum LexError {
    NoError,
    StringInvalidUtf8,
    StringInvalidEscapedChar,
    StringInvalidJsonChar,
    StringInvalidHexChar,
    InvalidChar,
    InvalidString,
    MissingIntegerAfterDecimal,
    MissingIntegerAfterExponent,
    MissingIntegerAfterMinus,
    UnallowedComment,
}


/// Whitespace between tokens: tab, newline, vertical tab, form feed, carriage return, space.
pub open spec fn is_ws(c: u8) -> bool {
    c == 9 || c == 10 || c == 11 || c == 12 || c == 13 || c == 32
}

/// A decimal digit.
pub open spec fn is_digit(c: u8) -> bool {
    0x30 <= c <= 0x39
}

/// A hexadecimal digit (either case).
pub open spec fn is_hex(c: u8) -> bool {
    is_digit(c) || (0x41 <= c <= 0x46) || (0x61 <= c <= 0x66)
}

/// A character that may follow a backslash (other than `u`): `" \ / b f n r t`.
pub open spec fn valid_escape(c: u8) -> bool {
    c == 0x22 || c == 0x5c || c == 0x2f || c == 0x62 || c == 0x66 || c == 0x6e || c == 0x72
        || c == 0x74
}

/// A byte that may not appear unescaped inside a string: control characters, `"` and `\`.
pub open spec fn invalid_json_char(c: u8) -> bool {
    c < 0x20 || c == 0x22 || c == 0x5c
}

/// A byte at which the fast string scan stops.
pub open spec fn scan_stop(c: u8, utf8check: bool) -> bool {
    invalid_json_char(c) || (utf8check && c >= 0x80)
}

/// A UTF-8 continuation byte.
pub open spec fn is_cont(c: u8) -> bool {
    0x80 <= c <= 0xbf
}

/// How many continuation bytes follow a UTF-8 lead byte (-1 when it cannot lead).
pub open spec fn utf8_need(c: u8) -> int {
    if c <= 0x7f {
        0
    } else if 0xc0 <= c <= 0xdf {
        1
    } else if 0xe0 <= c <= 0xef {
        2
    } else if 0xf0 <= c <= 0xf7 {
        3
    } else {
        -1
    }
}

/// The first position at or after `p` where the string scan stops (or the end).
pub open spec fn spec_scan_end(s: Seq<u8>, p: int, utf8check: bool) -> int
    decreases s.len() - p,
{
    if p >= s.len() || p < 0 {
        s.len() as int
    } else if scan_stop(s[p], utf8check) {
        p
    } else {
        spec_scan_end(s, p + 1, utf8check)
    }
}

/// Reads `n` bytes of a class from `p`: `Eof` when the input ends first,
/// `Error` at the first byte outside the class (that byte consumed when
/// `consume_bad`), else `String` at the position after them.
pub open spec fn spec_class_run(s: Seq<u8>, p: int, n: int, hex: bool) -> (Token, int)
    decreases n,
{
    if n <= 0 {
        (Token::String, p)
    } else if p >= s.len() || p < 0 {
        (Token::Eof, s.len() as int)
    } else if (hex && is_hex(s[p])) || (!hex && is_cont(s[p])) {
        spec_class_run(s, p + 1, n - 1, hex)
    } else if hex {
        (Token::Error, p)
    } else {
        (Token::Error, p + 1)
    }
}

/// Checks the continuation bytes of a UTF-8 sequence whose lead byte `c` came before `p`.
pub open spec fn spec_utf8_char(s: Seq<u8>, p: int, c: u8) -> (Token, int) {
    if utf8_need(c) < 0 {
        (Token::Error, p)
    } else {
        spec_class_run(s, p, utf8_need(c), false)
    }
}

/// Lexes the rest of a string whose opening quote came before `p`.
pub open spec fn spec_string(s: Seq<u8>, p: int, esc: bool, v: bool) -> (Token, int, LexError)
    decreases s.len() - p,
{
    let len = s.len() as int;
    let eof = (Token::Eof, len, LexError::NoError);
    if p < 0 || p > len {
        eof
    } else {
        let q = spec_scan_end(s, p, v);
        if q < p || q >= len {
            eof
        } else {
            let c = s[q];
            if c == 0x22 {
                (if esc {
                    Token::StringWithEscapes
                } else {
                    Token::String
                }, q + 1, LexError::NoError)
            } else if c == 0x5c {
                if q + 1 >= len {
                    eof
                } else if s[q + 1] == 0x75 {
                    let h = spec_class_run(s, q + 2, 4, true);
                    if h.0 == Token::Eof {
                        eof
                    } else if h.0 == Token::Error {
                        (Token::Error, h.1, LexError::StringInvalidHexChar)
                    } else if q + 6 <= len {
                        spec_string(s, q + 6, true, v)
                    } else {
                        eof
                    }
                } else if valid_escape(s[q + 1]) {
                    spec_string(s, q + 2, true, v)
                } else {
                    (Token::Error, q + 1, LexError::StringInvalidEscapedChar)
                }
            } else if invalid_json_char(c) {
                (Token::Error, q, LexError::StringInvalidJsonChar)
            } else if !v {
                spec_string(s, q + 1, esc, v)
            } else {
                let u = spec_utf8_char(s, q + 1, c);
                if u.0 == Token::Eof {
                    eof
                } else if u.0 == Token::Error {
                    (Token::Error, u.1, LexError::StringInvalidUtf8)
                } else if q + 1 <= u.1 <= len {
                    spec_string(s, u.1, esc, v)
                } else {
                    eof
                }
            }
        }
    }
}

proof fn lemma_scan_end(s: Seq<u8>, p: int, q: int, u: bool)
    requires
        0 <= p <= q <= s.len(),
        forall|j: int| p <= j < q ==> !scan_stop(#[trigger] s[j], u),
        q < s.len() ==> scan_stop(s[q], u),
    ensures
        spec_scan_end(s, p, u) == q,
    decreases q - p,
{
    if p < q {
        lemma_scan_end(s, p + 1, q, u);
    }
}

/// Whether `c` is a byte at which the string scan stops.
fn scan_stops(c: u8, utf8check: bool) -> (r: bool)
    ensures
        r == scan_stop(c, utf8check),
{
    c < 0x20 || c == 0x22 || c == 0x5c || (utf8check && c >= 0x80)
}

/// Skips the bytes of a string that need no further inspection: returns the
/// number of leading bytes of `buf` before a control character, `"`, `\`, or
/// (when `utf8check`) a byte of 0x80 or above.
pub fn string_scan(buf: &[u8], utf8check: bool) -> (skip: usize)
    ensures
        skip <= buf.len(),
        forall|j: int| 0 <= j < skip ==> !scan_stop(#[trigger] buf@[j], utf8check),
        skip < buf.len() ==> scan_stop(buf@[skip as int], utf8check),
{
    let mut skip: usize = 0;
    while skip < buf.len() && !scan_stops(buf[skip], utf8check)
        invariant
            skip <= buf.len(),
            forall|j: int| 0 <= j < skip ==> !scan_stop(#[trigger] buf@[j], utf8check),
        decreases buf.len() - skip,
    {
        skip = skip + 1;
    }
    skip
}

/// The stop position of the string scan from `p` within `s`.
fn scan_from(s: &[u8], p: usize, utf8check: bool) -> (q: usize)
    requires
        p <= s.len(),
    ensures
        p <= q <= s.len(),
        q == spec_scan_end(s@, p as int, utf8check),
{
    let sub = &s[p..s.len()];
    let k = string_scan(sub, utf8check);
    proof {
        assert forall|j: int| p <= j < p + k implies !scan_stop(#[trigger] s@[j], utf8check) by {
            assert(s@[j] == sub@[j - p]);
        }
        if p + k < s.len() {
            assert(s@[p + k] == sub@[k as int]);
        }
        lemma_scan_end(s@, p as int, (p + k) as int, utf8check);
    }
    p + k
}

fn is_hex_byte(c: u8) -> (r: bool)
    ensures
        r == is_hex(c),
{
    (0x30 <= c && c <= 0x39) || (0x41 <= c && c <= 0x46) || (0x61 <= c && c <= 0x66)
}

/// Reads `n` bytes that must be hex digits (`hex`) or UTF-8 continuation bytes.
fn class_run(s: &[u8], p: usize, n: usize, hex: bool) -> (r: (Token, usize))
    requires
        p <= s.len(),
        n <= 4,
    ensures
        (r.0, r.1 as int) == spec_class_run(s@, p as int, n as int, hex),
        r.1 <= s.len(),
        r.0 == Token::String ==> r.1 == p + n,
        r.0 == Token::Eof || r.0 == Token::String || r.0 == Token::Error,
        p <= r.1,
{
    let mut i: usize = 0;
    while i < n
        invariant
            i <= n <= 4,
            p + i <= s.len(),
            spec_class_run(s@, p as int, n as int, hex) == spec_class_run(
                s@,
                (p + i) as int,
                (n - i) as int,
                hex,
            ),
        decreases n - i,
    {
        if p + i >= s.len() {
            return (Token::Eof, s.len());
        }
        let c = s[p + i];
        let ok = if hex {
            is_hex_byte(c)
        } else {
            0x80 <= c && c <= 0xbf
        };
        if !ok {
            if hex {
                return (Token::Error, p + i);
            } else {
                return (Token::Error, p + i + 1);
            }
        }
        i = i + 1;
    }
    (Token::String, p + n)
}

/// Checks the bytes that must follow the UTF-8 lead byte `c`, reading from `p`.
fn utf8_char(s: &[u8], p: usize, c: u8) -> (r: (Token, usize))
    requires
        p <= s.len(),
    ensures
        (r.0, r.1 as int) == spec_utf8_char(s@, p as int, c),
        p <= r.1 <= s.len(),
{
    let need: usize = if c <= 0x7f {
        0
    } else if 0xc0 <= c && c <= 0xdf {
        1
    } else if 0xe0 <= c && c <= 0xef {
        2
    } else if 0xf0 <= c && c <= 0xf7 {
        3
    } else {
        return (Token::Error, p);
    };
    class_run(s, p, need, false)
}

/// Lexes the rest of a string whose opening quote came before `p`.
fn string(s: &[u8], p: usize, validate_utf8: bool) -> (r: (Token, usize, LexError))
    requires
        p <= s.len(),
    ensures
        (r.0, r.1 as int, r.2) == spec_string(s@, p as int, false, validate_utf8),
        p <= r.1 <= s.len(),
        r.0 == Token::String || r.0 == Token::StringWithEscapes ==> p + 1 <= r.1,
        r.0 == Token::Eof ==> r.1 == s.len(),
{
    let mut pos = p;
    let mut has_escapes = false;
    loop
        invariant
            p <= pos <= s.len(),
            spec_string(s@, p as int, false, validate_utf8) == spec_string(
                s@,
                pos as int,
                has_escapes,
                validate_utf8,
            ),
        decreases s.len() - pos,
    {
        let q = scan_from(s, pos, validate_utf8);
        if q >= s.len() {
            return (Token::Eof, s.len(), LexError::NoError);
        }
        let c = s[q];
        if c == 0x22 {
            if has_escapes {
                return (Token::StringWithEscapes, q + 1, LexError::NoError);
            } else {
                return (Token::String, q + 1, LexError::NoError);
            }
        } else if c == 0x5c {
            if q + 1 >= s.len() {
                return (Token::Eof, s.len(), LexError::NoError);
            }
            let e = s[q + 1];
            if e == 0x75 {
                let h = class_run(s, q + 2, 4, true);
                if h.0 == Token::Eof {
                    return (Token::Eof, s.len(), LexError::NoError);
                } else if h.0 == Token::Error {
                    return (Token::Error, h.1, LexError::StringInvalidHexChar);
                }
                has_escapes = true;
                pos = q + 6;
            } else if e == 0x22 || e == 0x5c || e == 0x2f || e == 0x62 || e == 0x66 || e == 0x6e
                || e == 0x72 || e == 0x74 {
                has_escapes = true;
                pos = q + 2;
            } else {
                return (Token::Error, q + 1, LexError::StringInvalidEscapedChar);
            }
        } else if c < 0x20 {
            return (Token::Error, q, LexError::StringInvalidJsonChar);
        } else if !validate_utf8 {
            pos = q + 1;
        } else {
            let u = utf8_char(s, q + 1, c);
            if u.0 == Token::Eof {
                return (Token::Eof, s.len(), LexError::NoError);
            } else if u.0 == Token::Error {
                return (Token::Error, u.1, LexError::StringInvalidUtf8);
            }
            pos = u.1;
        }
    }
}


/// The first position at or after `p` that does not hold a digit (or the end).
pub open spec fn spec_digits_end(s: Seq<u8>, p: int) -> int
    decreases s.len() - p,
{
    if p >= s.len() || p < 0 {
        s.len() as int
    } else if !is_digit(s[p]) {
        p
    } else {
        spec_digits_end(s, p + 1)
    }
}

/// The exponent part of a number; `i2` holds the byte after the mantissa.
pub open spec fn spec_number_exp(s: Seq<u8>, i2: int, dbl: bool) -> (Token, int, LexError) {
    let len = s.len() as int;
    let eof = (Token::Eof, len, LexError::NoError);
    if s[i2] == 0x65 || s[i2] == 0x45 {
        if i2 + 1 >= len {
            eof
        } else {
            let k = if s[i2 + 1] == 0x2b || s[i2 + 1] == 0x2d {
                i2 + 2
            } else {
                i2 + 1
            };
            if k >= len {
                eof
            } else if is_digit(s[k]) {
                let e = spec_digits_end(s, k + 1);
                if e >= len {
                    eof
                } else {
                    (Token::Double, e, LexError::NoError)
                }
            } else {
                (Token::Error, k, LexError::MissingIntegerAfterExponent)
            }
        }
    } else {
        (if dbl {
            Token::Double
        } else {
            Token::Integer
        }, i2, LexError::NoError)
    }
}

/// The fraction and exponent of a number; `i1` holds the byte after the integer part.
pub open spec fn spec_number_frac(s: Seq<u8>, i1: int) -> (Token, int, LexError) {
    let len = s.len() as int;
    let eof = (Token::Eof, len, LexError::NoError);
    if s[i1] == 0x2e {
        if i1 + 1 >= len {
            eof
        } else {
            let d = spec_digits_end(s, i1 + 1);
            if d >= len {
                eof
            } else if d == i1 + 1 {
                (Token::Error, i1 + 1, LexError::MissingIntegerAfterDecimal)
            } else {
                spec_number_exp(s, d, true)
            }
        }
    } else {
        spec_number_exp(s, i1, false)
    }
}

/// Lexes a number starting at `p` (a minus sign or a digit). A number ends
/// only at a byte that cannot continue it, so input that ends inside one
/// gives `Eof`; the end position is that of the first byte after the number.
pub open spec fn spec_number(s: Seq<u8>, p: int) -> (Token, int, LexError) {
    let len = s.len() as int;
    let eof = (Token::Eof, len, LexError::NoError);
    let i0 = if s[p] == 0x2d {
        p + 1
    } else {
        p
    };
    if i0 >= len {
        eof
    } else if s[i0] == 0x30 {
        if i0 + 1 >= len {
            eof
        } else {
            spec_number_frac(s, i0 + 1)
        }
    } else if is_digit(s[i0]) {
        let d = spec_digits_end(s, i0 + 1);
        if d >= len {
            eof
        } else {
            spec_number_frac(s, d)
        }
    } else {
        (Token::Error, i0, LexError::MissingIntegerAfterMinus)
    }
}

/// The first position at or after `p` holding byte `b` (or the end).
pub open spec fn spec_find_byte(s: Seq<u8>, p: int, b: u8) -> int
    decreases s.len() - p,
{
    if p >= s.len() || p < 0 {
        s.len() as int
    } else if s[p] == b {
        p
    } else {
        spec_find_byte(s, p + 1, b)
    }
}

/// The first position at or after `p` where `*/` starts (or the end).
pub open spec fn spec_find_close(s: Seq<u8>, p: int) -> int
    decreases s.len() - p,
{
    if p + 1 >= s.len() || p < 0 {
        s.len() as int
    } else if s[p] == 0x2a && s[p + 1] == 0x2f {
        p
    } else {
        spec_find_close(s, p + 1)
    }
}

/// Lexes a comment whose leading `/` came before `p`: `//` runs to the end
/// of the line, `/*` to the first `*/`.
pub open spec fn spec_comment(s: Seq<u8>, p: int) -> (Token, int, LexError) {
    let len = s.len() as int;
    let eof = (Token::Eof, len, LexError::NoError);
    if p >= len {
        eof
    } else if s[p] == 0x2f {
        let n = spec_find_byte(s, p + 1, 0x0a);
        if n >= len {
            eof
        } else {
            (Token::Comment, n + 1, LexError::NoError)
        }
    } else if s[p] == 0x2a {
        let k = spec_find_close(s, p + 1);
        if k >= len {
            eof
        } else {
            (Token::Comment, k + 2, LexError::NoError)
        }
    } else {
        (Token::Error, p + 1, LexError::InvalidChar)
    }
}

/// The remaining letters of the keywords `true`, `false` and `null`.
pub open spec fn kw_rest(first: u8) -> Seq<u8> {
    if first == 0x74 {
        seq![0x72u8, 0x75u8, 0x65u8]
    } else if first == 0x66 {
        seq![0x61u8, 0x6cu8, 0x73u8, 0x65u8]
    } else {
        seq![0x75u8, 0x6cu8, 0x6cu8]
    }
}

/// Matches `kw[i..]` at `p + i`: `Bool` when it matches, `Eof` when the input
/// ends first, `Error` at the first differing byte.
pub open spec fn spec_kw(s: Seq<u8>, p: int, kw: Seq<u8>, i: int) -> (Token, int)
    decreases kw.len() - i,
{
    if i >= kw.len() || i < 0 {
        (Token::Bool, p + kw.len())
    } else if p + i >= s.len() {
        (Token::Eof, s.len() as int)
    } else if s[p + i] != kw[i] {
        (Token::Error, p + i)
    } else {
        spec_kw(s, p, kw, i + 1)
    }
}

/// The outcome of lexing one token: its kind, where its text starts and
/// ends, and the error when the kind is `Error`.
pub struct LexOut {
    pub tok: Token,
    pub start: int,
    pub end: int,
    pub err: LexError,
}

/// Lexes one token of `s` from `p`: skips whitespace (and, when
/// `allow_comments`, comments), then reads one token.
pub open spec fn spec_lex(s: Seq<u8>, p: int, allow_comments: bool, v: bool) -> LexOut
    decreases s.len() - p,
{
    let len = s.len() as int;
    if p < 0 || p >= len {
        LexOut { tok: Token::Eof, start: len, end: len, err: LexError::NoError }
    } else {
        let c = s[p];
        let single = |t: Token| LexOut { tok: t, start: p, end: p + 1, err: LexError::NoError };
        if c == 0x7b {
            single(Token::LeftBracket)
        } else if c == 0x7d {
            single(Token::RightBracket)
        } else if c == 0x5b {
            single(Token::LeftBrace)
        } else if c == 0x5d {
            single(Token::RightBrace)
        } else if c == 0x2c {
            single(Token::Comma)
        } else if c == 0x3a {
            single(Token::Colon)
        } else if is_ws(c) {
            spec_lex(s, p + 1, allow_comments, v)
        } else if c == 0x74 || c == 0x66 || c == 0x6e {
            let k = spec_kw(s, p + 1, kw_rest(c), 0);
            if k.0 == Token::Bool {
                LexOut {
                    tok: if c == 0x6e {
                        Token::Null
                    } else {
                        Token::Bool
                    },
                    start: p,
                    end: k.1,
                    err: LexError::NoError,
                }
            } else if k.0 == Token::Eof {
                LexOut { tok: Token::Eof, start: p, end: len, err: LexError::NoError }
            } else {
                LexOut { tok: Token::Error, start: p, end: k.1, err: LexError::InvalidString }
            }
        } else if c == 0x22 {
            let r = spec_string(s, p + 1, false, v);
            LexOut { tok: r.0, start: p, end: r.1, err: r.2 }
        } else if c == 0x2d || is_digit(c) {
            let r = spec_number(s, p);
            LexOut { tok: r.0, start: p, end: r.1, err: r.2 }
        } else if c == 0x2f {
            if !allow_comments {
                LexOut { tok: Token::Error, start: p, end: p, err: LexError::UnallowedComment }
            } else {
                let r = spec_comment(s, p + 1);
                if r.0 == Token::Comment && p < r.1 <= len {
                    spec_lex(s, r.1, allow_comments, v)
                } else if r.0 == Token::Error {
                    LexOut { tok: Token::Error, start: p, end: r.1, err: r.2 }
                } else {
                    LexOut { tok: Token::Eof, start: p, end: len, err: LexError::NoError }
                }
            }
        } else {
            LexOut { tok: Token::Error, start: p, end: p + 1, err: LexError::InvalidChar }
        }
    }
}

/// Position of the first non-digit at or after `p`.
fn digits_end(s: &[u8], p: usize) -> (d: usize)
    requires
        p <= s.len(),
    ensures
        p <= d <= s.len(),
        d == spec_digits_end(s@, p as int),
{
    let mut d = p;
    while d < s.len() && 0x30 <= s[d] && s[d] <= 0x39
        invariant
            p <= d <= s.len(),
            spec_digits_end(s@, p as int) == spec_digits_end(s@, d as int),
        decreases s.len() - d,
    {
        d = d + 1;
    }
    d
}

fn number_exp(s: &[u8], i2: usize, dbl: bool) -> (r: (Token, usize, LexError))
    requires
        i2 < s.len(),
    ensures
        (r.0, r.1 as int, r.2) == spec_number_exp(s@, i2 as int, dbl),
        i2 <= r.1 <= s.len(),
        r.0 == Token::Eof ==> r.1 == s.len(),
{
    let len = s.len();
    if s[i2] == 0x65 || s[i2] == 0x45 {
        if i2 + 1 >= len {
            return (Token::Eof, len, LexError::NoError);
        }
        let k = if s[i2 + 1] == 0x2b || s[i2 + 1] == 0x2d {
            i2 + 2
        } else {
            i2 + 1
        };
        if k >= len {
            return (Token::Eof, len, LexError::NoError);
        }
        if 0x30 <= s[k] && s[k] <= 0x39 {
            let e = digits_end(s, k + 1);
            if e >= len {
                (Token::Eof, len, LexError::NoError)
            } else {
                (Token::Double, e, LexError::NoError)
            }
        } else {
            (Token::Error, k, LexError::MissingIntegerAfterExponent)
        }
    } else if dbl {
        (Token::Double, i2, LexError::NoError)
    } else {
        (Token::Integer, i2, LexError::NoError)
    }
}

fn number_frac(s: &[u8], i1: usize) -> (r: (Token, usize, LexError))
    requires
        i1 < s.len(),
    ensures
        (r.0, r.1 as int, r.2) == spec_number_frac(s@, i1 as int),
        i1 <= r.1 <= s.len(),
        r.0 == Token::Eof ==> r.1 == s.len(),
{
    let len = s.len();
    if s[i1] == 0x2e {
        if i1 + 1 >= len {
            return (Token::Eof, len, LexError::NoError);
        }
        let d = digits_end(s, i1 + 1);
        if d >= len {
            (Token::Eof, len, LexError::NoError)
        } else if d == i1 + 1 {
            (Token::Error, i1 + 1, LexError::MissingIntegerAfterDecimal)
        } else {
            number_exp(s, d, true)
        }
    } else {
        number_exp(s, i1, false)
    }
}

/// Lexes a number starting at `p`.
fn number(s: &[u8], p: usize) -> (r: (Token, usize, LexError))
    requires
        p < s.len(),
        s@[p as int] == 0x2d || is_digit(s@[p as int]),
    ensures
        (r.0, r.1 as int, r.2) == spec_number(s@, p as int),
        p <= r.1 <= s.len(),
        r.0 == Token::Integer || r.0 == Token::Double ==> p < r.1,
        r.0 == Token::Eof ==> r.1 == s.len(),
{
    let len = s.len();
    let i0 = if s[p] == 0x2d {
        p + 1
    } else {
        p
    };
    if i0 >= len {
        return (Token::Eof, len, LexError::NoError);
    }
    if s[i0] == 0x30 {
        if i0 + 1 >= len {
            (Token::Eof, len, LexError::NoError)
        } else {
            number_frac(s, i0 + 1)
        }
    } else if 0x31 <= s[i0] && s[i0] <= 0x39 {
        let d = digits_end(s, i0 + 1);
        if d >= len {
            (Token::Eof, len, LexError::NoError)
        } else {
            number_frac(s, d)
        }
    } else {
        (Token::Error, i0, LexError::MissingIntegerAfterMinus)
    }
}

/// Lexes a comment whose leading `/` came before `p`.
fn comment(s: &[u8], p: usize) -> (r: (Token, usize, LexError))
    requires
        p <= s.len(),
    ensures
        (r.0, r.1 as int, r.2) == spec_comment(s@, p as int),
        p <= r.1 <= s.len(),
        r.0 == Token::Comment ==> p < r.1,
{
    let len = s.len();
    if p >= len {
        return (Token::Eof, len, LexError::NoError);
    }
    if s[p] == 0x2f {
        let mut j = p + 1;
        while j < len && s[j] != 0x0a
            invariant
                p + 1 <= j <= len,
                len == s.len(),
                spec_find_byte(s@, (p + 1) as int, 0x0a) == spec_find_byte(s@, j as int, 0x0a),
            decreases len - j,
        {
            j = j + 1;
        }
        if j >= len {
            (Token::Eof, len, LexError::NoError)
        } else {
            (Token::Comment, j + 1, LexError::NoError)
        }
    } else if s[p] == 0x2a {
        let mut j = p + 1;
        while j < len - 1 && !(s[j] == 0x2a && s[j + 1] == 0x2f)
            invariant
                p + 1 <= j <= len,
                len == s.len(),
                spec_find_close(s@, (p + 1) as int) == spec_find_close(s@, j as int),
            decreases len - j,
        {
            j = j + 1;
        }
        if j >= len - 1 {
            (Token::Eof, len, LexError::NoError)
        } else {
            (Token::Comment, j + 2, LexError::NoError)
        }
    } else {
        (Token::Error, p + 1, LexError::InvalidChar)
    }
}


fn kw_len(first: u8) -> (n: usize)
    ensures
        n == kw_rest(first).len(),
{
    if first == 0x66 {
        4
    } else {
        3
    }
}

fn kw_byte(first: u8, i: usize) -> (b: u8)
    requires
        i < kw_rest(first).len(),
    ensures
        b == kw_rest(first)[i as int],
{
    if first == 0x74 {
        if i == 0 {
            0x72
        } else if i == 1 {
            0x75
        } else {
            0x65
        }
    } else if first == 0x66 {
        if i == 0 {
            0x61
        } else if i == 1 {
            0x6c
        } else if i == 2 {
            0x73
        } else {
            0x65
        }
    } else {
        if i == 0 {
            0x75
        } else {
            0x6c
        }
    }
}

/// Matches the rest of the keyword that starts with `first`, reading from `p`.
fn keyword(s: &[u8], p: usize, first: u8) -> (r: (Token, usize))
    requires
        p <= s.len(),
    ensures
        (r.0, r.1 as int) == spec_kw(s@, p as int, kw_rest(first), 0),
        p <= r.1 <= s.len(),
{
    let n = kw_len(first);
    let mut i: usize = 0;
    while i < n
        invariant
            n == kw_rest(first).len(),
            i <= n,
            p <= s.len(),
            spec_kw(s@, p as int, kw_rest(first), 0) == spec_kw(
                s@,
                p as int,
                kw_rest(first),
                i as int,
            ),
            i > 0 ==> p + i <= s.len(),
        decreases n - i,
    {
        if p + i >= s.len() {
            return (Token::Eof, s.len());
        }
        if s[p + i] != kw_byte(first, i) {
            return (Token::Error, p + i);
        }
        i = i + 1;
    }
    (Token::Bool, p + n)
}

/// Lexes one token of `s` starting at `p`; returns the token, the start and
/// end of its text, and the error when the token is `Error`.
fn lex_core(s: &[u8], p: usize, allow_comments: bool, v: bool) -> (r: (Token, usize, usize, LexError))
    requires
        p <= s.len(),
    ensures
        ({
            let o = spec_lex(s@, p as int, allow_comments, v);
            r.0 == o.tok && r.1 == o.start && r.2 == o.end && r.3 == o.err
        }),
        p <= r.1 <= r.2 <= s.len(),
        r.0 == Token::String || r.0 == Token::StringWithEscapes ==> r.1 + 2 <= r.2,
        r.0 != Token::Eof && r.0 != Token::Error ==> r.1 < r.2,
        r.0 == Token::Eof ==> r.2 == s.len(),
{
    let len = s.len();
    let mut pos = p;
    loop
        invariant
            p <= pos <= len,
            len == s.len(),
            spec_lex(s@, p as int, allow_comments, v) == spec_lex(
                s@,
                pos as int,
                allow_comments,
                v,
            ),
        decreases len - pos,
    {
        if pos >= len {
            return (Token::Eof, len, len, LexError::NoError);
        }
        let c = s[pos];
        if c == 0x7b {
            return (Token::LeftBracket, pos, pos + 1, LexError::NoError);
        } else if c == 0x7d {
            return (Token::RightBracket, pos, pos + 1, LexError::NoError);
        } else if c == 0x5b {
            return (Token::LeftBrace, pos, pos + 1, LexError::NoError);
        } else if c == 0x5d {
            return (Token::RightBrace, pos, pos + 1, LexError::NoError);
        } else if c == 0x2c {
            return (Token::Comma, pos, pos + 1, LexError::NoError);
        } else if c == 0x3a {
            return (Token::Colon, pos, pos + 1, LexError::NoError);
        } else if c == 9 || c == 10 || c == 11 || c == 12 || c == 13 || c == 32 {
            pos = pos + 1;
        } else if c == 0x74 || c == 0x66 || c == 0x6e {
            let k = keyword(s, pos + 1, c);
            if k.0 == Token::Bool {
                if c == 0x6e {
                    return (Token::Null, pos, k.1, LexError::NoError);
                } else {
                    return (Token::Bool, pos, k.1, LexError::NoError);
                }
            } else if k.0 == Token::Eof {
                return (Token::Eof, pos, len, LexError::NoError);
            } else {
                return (Token::Error, pos, k.1, LexError::InvalidString);
            }
        } else if c == 0x22 {
            let r = string(s, pos + 1, v);
            return (r.0, pos, r.1, r.2);
        } else if c == 0x2d || (0x30 <= c && c <= 0x39) {
            let r = number(s, pos);
            return (r.0, pos, r.1, r.2);
        } else if c == 0x2f {
            if !allow_comments {
                return (Token::Error, pos, pos, LexError::UnallowedComment);
            }
            let r = comment(s, pos + 1);
            if r.0 == Token::Comment {
                pos = r.1;
            } else if r.0 == Token::Error {
                return (Token::Error, pos, r.1, r.2);
            } else {
                return (Token::Eof, pos, len, LexError::NoError);
            }
        } else {
            return (Token::Error, pos, pos + 1, LexError::InvalidChar);
        }
    }
}


/// The bytes a token carries: a string's contents without its quotes, the
/// text of other tokens, and nothing for `Eof`, `Error` and `Comment`.
pub open spec fn spec_token_text(st: Seq<u8>, o: LexOut) -> Seq<u8> {
    if o.tok == Token::String || o.tok == Token::StringWithEscapes {
        st.subrange(o.start + 1, o.end - 1)
    } else if o.tok == Token::Eof || o.tok == Token::Error || o.tok == Token::Comment {
        Seq::empty()
    } else {
        st.subrange(o.start, o.end)
    }
}

/// The message that describes a lexical error.
pub open spec fn spec_lex_error_text(e: LexError) -> &'static str {
    match e {
        LexError::NoError => "ok, no error",
        LexError::StringInvalidUtf8 => "invalid bytes in UTF8 string.",
        LexError::StringInvalidEscapedChar => "inside a string, '\\' occurs before a character which it may not.",
        LexError::StringInvalidJsonChar => "invalid character inside string.",
        LexError::StringInvalidHexChar => "invalid (non-hex) character occurs after '\\u' inside string.",
        LexError::InvalidChar => "invalid char in json text.",
        LexError::InvalidString => "invalid string in json text.",
        LexError::MissingIntegerAfterExponent => "malformed number, a digit is required after the exponent.",
        LexError::MissingIntegerAfterDecimal => "malformed number, a digit is required after the decimal point.",
        LexError::MissingIntegerAfterMinus => "malformed number, a digit is required after the minus sign.",
        LexError::UnallowedComment => "probable comment found in input text, comments are not enabled.",
    }
}

impl LexError {
    /// The message that describes this error.
    pub fn as_str(&self) -> (s: &'static str)
        ensures
            s == spec_lex_error_text(*self),
    {
        match self {
            LexError::NoError => "ok, no error",
            LexError::StringInvalidUtf8 => "invalid bytes in UTF8 string.",
            LexError::StringInvalidEscapedChar => "inside a string, '\\' occurs before a character which it may not.",
            LexError::StringInvalidJsonChar => "invalid character inside string.",
            LexError::StringInvalidHexChar => "invalid (non-hex) character occurs after '\\u' inside string.",
            LexError::InvalidChar => "invalid char in json text.",
            LexError::InvalidString => "invalid string in json text.",
            LexError::MissingIntegerAfterExponent => "malformed number, a digit is required after the exponent.",
            LexError::MissingIntegerAfterDecimal => "malformed number, a digit is required after the decimal point.",
            LexError::MissingIntegerAfterMinus => "malformed number, a digit is required after the minus sign.",
            LexError::UnallowedComment => "probable comment found in input text, comments are not enabled.",
        }
    }
}

/// The options a lexer is made with.
pub struct LexerOptions {
    pub allow_comments: bool,
    pub validate_utf8: bool,
}

impl Default for LexerOptions {
    /// Comments refused, strings checked for valid UTF-8.
    fn default() -> (r: Self)
        ensures
            r.allow_comments == false,
            r.validate_utf8 == true,
    {
        LexerOptions { allow_comments: false, validate_utf8: true }
    }
}

/// A lexer over JSON text that arrives in chunks: a token cut off by the end
/// of one chunk is kept and completed from the next one.
pub struct RLexer {
    buf: Vec<u8>,
    buf_in_use: bool,
    error: LexError,
    allow_comments: bool,
    validate_utf8: bool,
}

impl RLexer {
    /// Whether the start of an unfinished token is held over from an earlier chunk.
    pub closed spec fn in_use(self) -> bool {
        self.buf_in_use
    }

    /// The held-over start of an unfinished token (empty when none is held).
    pub closed spec fn pending(self) -> Seq<u8> {
        if self.buf_in_use {
            self.buf@
        } else {
            Seq::empty()
        }
    }

    /// The last lexical error seen.
    pub closed spec fn error_state(self) -> LexError {
        self.error
    }

    /// Whether comments are accepted.
    pub closed spec fn comments_allowed(self) -> bool {
        self.allow_comments
    }

    /// Whether strings are checked for valid UTF-8.
    pub closed spec fn validates_utf8(self) -> bool {
        self.validate_utf8
    }

    /// The bytes the next token is read from: the held-over bytes, if any,
    /// followed by the rest of the chunk from `off`; without held-over bytes,
    /// the chunk itself (read from `off`).
    pub open spec fn stream(self, text: Seq<u8>, off: int) -> Seq<u8> {
        if self.in_use() {
            self.pending() + text.subrange(off, text.len() as int)
        } else {
            text
        }
    }

    /// Where in `stream` lexing starts.
    pub open spec fn stream_base(self, off: int) -> int {
        if self.in_use() {
            0
        } else {
            off
        }
    }

    /// The outcome of lexing the next token.
    pub open spec fn next(self, text: Seq<u8>, off: int) -> LexOut {
        spec_lex(
            self.stream(text, off),
            self.stream_base(off),
            self.comments_allowed(),
            self.validates_utf8(),
        )
    }

    /// Maps a position of `stream` back to a position of the chunk.
    pub open spec fn chunk_pos(self, off: int, pos: int) -> int {
        if !self.in_use() {
            pos
        } else if pos >= self.pending().len() {
            off + pos - self.pending().len()
        } else {
            off
        }
    }

    /// The lexer state after lexing the next token: the error is recorded
    /// on `Error`, the unfinished token held on `Eof`, nothing held otherwise.
    pub open spec fn after(self, text: Seq<u8>, off: int, next: Self) -> bool {
        let o = self.next(text, off);
        &&& next.comments_allowed() == self.comments_allowed()
        &&& next.validates_utf8() == self.validates_utf8()
        &&& next.error_state() == (if o.tok == Token::Error {
            o.err
        } else {
            self.error_state()
        })
        &&& next.in_use() == (o.tok == Token::Eof)
        &&& o.tok == Token::Eof ==> next.pending() == self.stream(text, off).subrange(
            o.start,
            self.stream(text, off).len() as int,
        )
    }

    /// A lexer with no held-over bytes and no error.
    pub fn new(allow_comments: bool, validate_utf8: bool) -> (l: Self)
        ensures
            !l.in_use(),
            l.error_state() == LexError::NoError,
            l.comments_allowed() == allow_comments,
            l.validates_utf8() == validate_utf8,
    {
        RLexer {
            buf: Vec::new(),
            buf_in_use: false,
            error: LexError::NoError,
            allow_comments,
            validate_utf8,
        }
    }

    /// A lexer made with the given options.
    pub fn with_options(options: LexerOptions) -> (l: Self)
        ensures
            !l.in_use(),
            l.error_state() == LexError::NoError,
            l.comments_allowed() == options.allow_comments,
            l.validates_utf8() == options.validate_utf8,
    {
        RLexer::new(options.allow_comments, options.validate_utf8)
    }

    /// The line the lexer stands on; lines are not counted, so it is 0.
    pub fn current_line(&self) -> (n: usize)
        ensures
            n == 0,
    {
        0
    }

    /// The character the lexer stands on within its line; characters are
    /// not counted, so it is 0.
    pub fn current_char(&self) -> (n: usize)
        ensures
            n == 0,
    {
        0
    }

    /// The last lexical error seen.
    pub fn get_error(&self) -> (e: LexError)
        ensures
            e == self.error_state(),
    {
        self.error
    }

    /// Lexes the next token of `text` from `*offset` and moves `*offset` past
    /// it; also returns the bytes the token carries.
    pub fn lex(&mut self, text: &[u8], offset: &mut usize) -> (r: (Token, Vec<u8>))
        requires
            *old(offset) <= text.len(),
        ensures
            ({
                let off = *old(offset) as int;
                let o = old(self).next(text@, off);
                &&& r.0 == o.tok
                &&& r.1@ == spec_token_text(old(self).stream(text@, off), o)
                &&& *final(offset) == old(self).chunk_pos(off, o.end)
                &&& old(self).after(text@, off, *final(self))
            }),
            *old(offset) <= *final(offset) <= text.len(),
            r.0 != Token::Eof && r.0 != Token::Error ==> *old(offset) < *final(offset)
                || old(self).in_use(),
            r.0 == Token::Eof ==> *final(offset) == text.len(),
    {
        let off = *offset;
        let ac = self.allow_comments;
        let v = self.validate_utf8;
        let ghost st = self.stream(text@, off as int);
        if self.buf_in_use {
            let pl = self.buf.len();
            let mut joined: Vec<u8> = copy_range(self.buf.as_slice(), 0, pl);
            append_range(&mut joined, text, off, text.len());
            proof {
                assert(self.buf@.subrange(0, pl as int) == self.buf@);
                assert(joined@ == st);
            }
            let r = lex_core(joined.as_slice(), 0, ac, v);
            if r.2 >= pl {
                *offset = off + (r.2 - pl);
            }
            let out = if r.0 == Token::String || r.0 == Token::StringWithEscapes {
                copy_range(joined.as_slice(), r.1 + 1, r.2 - 1)
            } else if r.0 == Token::Eof || r.0 == Token::Error || r.0 == Token::Comment {
                Vec::new()
            } else {
                copy_range(joined.as_slice(), r.1, r.2)
            };
            if r.0 == Token::Eof {
                self.buf = copy_range(joined.as_slice(), r.1, joined.len());
            } else {
                self.buf_in_use = false;
                self.buf = Vec::new();
            }
            if r.0 == Token::Error {
                self.error = r.3;
            }
            (r.0, out)
        } else {
            let r = lex_core(text, off, ac, v);
            *offset = r.2;
            let out = if r.0 == Token::String || r.0 == Token::StringWithEscapes {
                copy_range(text, r.1 + 1, r.2 - 1)
            } else if r.0 == Token::Eof || r.0 == Token::Error || r.0 == Token::Comment {
                Vec::new()
            } else {
                copy_range(text, r.1, r.2)
            };
            if r.0 == Token::Eof {
                self.buf = copy_range(text, r.1, text.len());
                self.buf_in_use = true;
            }
            if r.0 == Token::Error {
                self.error = r.3;
            }
            (r.0, out)
        }
    }

    /// The next token of `text` from `offset`, without consuming it: the
    /// held-over bytes are left as they were (the error is recorded as `lex` does).
    pub fn peek(&mut self, text: &[u8], offset: usize) -> (t: Token)
        requires
            offset <= text.len(),
        ensures
            t == old(self).next(text@, offset as int).tok,
            final(self).in_use() == old(self).in_use(),
            final(self).pending() == old(self).pending(),
            final(self).comments_allowed() == old(self).comments_allowed(),
            final(self).validates_utf8() == old(self).validates_utf8(),
            final(self).error_state() == (if t == Token::Error {
                old(self).next(text@, offset as int).err
            } else {
                old(self).error_state()
            }),
    {
        let saved_buf = copy_range(self.buf.as_slice(), 0, self.buf.len());
        let saved_in_use = self.buf_in_use;
        proof {
            assert(self.buf@.subrange(0, self.buf@.len() as int) == self.buf@);
        }
        let mut off = offset;
        let r = self.lex(text, &mut off);
        self.buf = saved_buf;
        self.buf_in_use = saved_in_use;
        r.0
    }
}

/// `u` starts with `s`.
pub open spec fn extends(s: Seq<u8>, u: Seq<u8>) -> bool {
    s.len() <= u.len() && forall|i: int| 0 <= i < s.len() ==> #[trigger] u[i] == s[i]
}

proof fn lemma_scan_end_extends(s: Seq<u8>, u: Seq<u8>, p: int, c: bool)
    requires
        extends(s, u),
        0 <= p,
        spec_scan_end(s, p, c) < s.len(),
    ensures
        spec_scan_end(u, p, c) == spec_scan_end(s, p, c),
    decreases s.len() - p,
{
    if p < s.len() && !scan_stop(s[p], c) {
        assert(u[p] == s[p]);
        lemma_scan_end_extends(s, u, p + 1, c);
    } else if p < s.len() {
        assert(u[p] == s[p]);
    }
}

proof fn lemma_class_run_extends(s: Seq<u8>, u: Seq<u8>, p: int, n: int, hex: bool)
    requires
        extends(s, u),
        0 <= p,
        spec_class_run(s, p, n, hex).0 != Token::Eof,
    ensures
        spec_class_run(u, p, n, hex) == spec_class_run(s, p, n, hex),
    decreases n,
{
    if n > 0 && p < s.len() {
        assert(u[p] == s[p]);
        if (hex && is_hex(s[p])) || (!hex && is_cont(s[p])) {
            lemma_class_run_extends(s, u, p + 1, n - 1, hex);
        }
    }
}

proof fn lemma_string_extends(s: Seq<u8>, u: Seq<u8>, p: int, esc: bool, v: bool)
    requires
        extends(s, u),
        0 <= p,
        spec_string(s, p, esc, v).0 != Token::Eof,
    ensures
        spec_string(u, p, esc, v) == spec_string(s, p, esc, v),
    decreases s.len() - p,
{
    let len = s.len() as int;
    if p <= len {
        let q = spec_scan_end(s, p, v);
        if q >= p && q < len {
            lemma_scan_end_extends(s, u, p, v);
            let c = s[q];
            assert(u[q] == c);
            if c == 0x22 {
            } else if c == 0x5c {
                if q + 1 < len {
                    assert(u[q + 1] == s[q + 1]);
                    if s[q + 1] == 0x75 {
                        let h = spec_class_run(s, q + 2, 4, true);
                        if h.0 != Token::Eof {
                            lemma_class_run_extends(s, u, q + 2, 4, true);
                            if h.0 != Token::Error && q + 6 <= len {
                                lemma_string_extends(s, u, q + 6, true, v);
                            }
                        }
                    } else if valid_escape(s[q + 1]) {
                        lemma_string_extends(s, u, q + 2, true, v);
                    }
                }
            } else if invalid_json_char(c) {
            } else if !v {
                lemma_string_extends(s, u, q + 1, esc, v);
            } else {
                let w = spec_utf8_char(s, q + 1, c);
                if utf8_need(c) >= 0 && w.0 != Token::Eof {
                    lemma_class_run_extends(s, u, q + 1, utf8_need(c), false);
                }
                if w.0 != Token::Eof && w.0 != Token::Error && q + 1 <= w.1 <= len {
                    lemma_string_extends(s, u, w.1, esc, v);
                }
            }
        }
    }
}

proof fn lemma_digits_end_extends(s: Seq<u8>, u: Seq<u8>, p: int)
    requires
        extends(s, u),
        0 <= p,
        spec_digits_end(s, p) < s.len(),
    ensures
        spec_digits_end(u, p) == spec_digits_end(s, p),
    decreases s.len() - p,
{
    if p < s.len() {
        assert(u[p] == s[p]);
        if is_digit(s[p]) {
            lemma_digits_end_extends(s, u, p + 1);
        }
    }
}

proof fn lemma_digits_end_after(s: Seq<u8>, p: int)
    requires
        0 <= p,
    ensures
        p <= spec_digits_end(s, p) || spec_digits_end(s, p) == s.len(),
    decreases s.len() - p,
{
    if p < s.len() && is_digit(s[p]) {
        lemma_digits_end_after(s, p + 1);
    }
}

proof fn lemma_number_extends(s: Seq<u8>, u: Seq<u8>, p: int)
    requires
        extends(s, u),
        0 <= p < s.len(),
        spec_number(s, p).0 != Token::Eof,
    ensures
        spec_number(u, p) == spec_number(s, p),
{
    let len = s.len() as int;
    assert(u[p] == s[p]);
    let i0 = if s[p] == 0x2d {
        p + 1
    } else {
        p
    };
    assert(u[i0] == s[i0]);
    let i1 = if s[i0] == 0x30 {
        i0 + 1
    } else {
        spec_digits_end(s, i0 + 1)
    };
    if is_digit(s[i0]) && s[i0] != 0x30 {
        lemma_digits_end_after(s, i0 + 1);
        if i1 < len {
            lemma_digits_end_extends(s, u, i0 + 1);
        }
    }
    if is_digit(s[i0]) && i1 < len {
        assert(u[i1] == s[i1]);
        let i2 = if s[i1] == 0x2e {
            spec_digits_end(s, i1 + 1)
        } else {
            i1
        };
        if s[i1] == 0x2e && i1 + 1 < len {
            lemma_digits_end_after(s, i1 + 1);
            if i2 < len {
                lemma_digits_end_extends(s, u, i1 + 1);
            }
        }
        if i2 < len {
            assert(u[i2] == s[i2]);
            if (s[i2] == 0x65 || s[i2] == 0x45) && i2 + 1 < len {
                assert(u[i2 + 1] == s[i2 + 1]);
                let k = if s[i2 + 1] == 0x2b || s[i2 + 1] == 0x2d {
                    i2 + 2
                } else {
                    i2 + 1
                };
                if k < len {
                    assert(u[k] == s[k]);
                    if is_digit(s[k]) && spec_digits_end(s, k + 1) < len {
                        lemma_digits_end_extends(s, u, k + 1);
                    }
                }
            }
        }
    }
}

proof fn lemma_find_byte_extends(s: Seq<u8>, u: Seq<u8>, p: int, b: u8)
    requires
        extends(s, u),
        0 <= p,
        spec_find_byte(s, p, b) < s.len(),
    ensures
        spec_find_byte(u, p, b) == spec_find_byte(s, p, b),
    decreases s.len() - p,
{
    if p < s.len() {
        assert(u[p] == s[p]);
        if s[p] != b {
            lemma_find_byte_extends(s, u, p + 1, b);
        }
    }
}

proof fn lemma_find_close_extends(s: Seq<u8>, u: Seq<u8>, p: int)
    requires
        extends(s, u),
        0 <= p,
        spec_find_close(s, p) < s.len(),
    ensures
        spec_find_close(u, p) == spec_find_close(s, p),
    decreases s.len() - p,
{
    if p + 1 < s.len() {
        assert(u[p] == s[p]);
        assert(u[p + 1] == s[p + 1]);
        if !(s[p] == 0x2a && s[p + 1] == 0x2f) {
            lemma_find_close_extends(s, u, p + 1);
        }
    }
}

proof fn lemma_comment_extends(s: Seq<u8>, u: Seq<u8>, p: int)
    requires
        extends(s, u),
        0 <= p,
        spec_comment(s, p).0 != Token::Eof,
    ensures
        spec_comment(u, p) == spec_comment(s, p),
{
    let len = s.len() as int;
    if p < len {
        assert(u[p] == s[p]);
        if s[p] == 0x2f {
            lemma_find_byte_extends(s, u, p + 1, 0x0a);
        } else if s[p] == 0x2a {
            lemma_find_close_extends(s, u, p + 1);
        }
    }
}

proof fn lemma_kw_extends(s: Seq<u8>, u: Seq<u8>, p: int, kw: Seq<u8>, i: int)
    requires
        extends(s, u),
        0 <= p,
        spec_kw(s, p, kw, i).0 != Token::Eof,
    ensures
        spec_kw(u, p, kw, i) == spec_kw(s, p, kw, i),
    decreases kw.len() - i,
{
    if 0 <= i < kw.len() && p + i < s.len() {
        assert(u[p + i] == s[p + i]);
        if s[p + i] == kw[i] {
            lemma_kw_extends(s, u, p, kw, i + 1);
        }
    }
}

proof fn lemma_lex_extends(s: Seq<u8>, u: Seq<u8>, p: int, ac: bool, v: bool)
    requires
        extends(s, u),
        0 <= p,
        spec_lex(s, p, ac, v).tok != Token::Eof,
    ensures
        spec_lex(u, p, ac, v) == spec_lex(s, p, ac, v),
    decreases s.len() - p,
{
    if p < s.len() {
        let c = s[p];
        assert(u[p] == c);
        if is_ws(c) {
            lemma_lex_extends(s, u, p + 1, ac, v);
        } else if c == 0x74 || c == 0x66 || c == 0x6e {
            lemma_kw_extends(s, u, p + 1, kw_rest(c), 0);
        } else if c == 0x22 {
            lemma_string_extends(s, u, p + 1, false, v);
        } else if c == 0x2d || is_digit(c) {
            lemma_number_extends(s, u, p);
        } else if c == 0x2f && ac {
            let r = spec_comment(s, p + 1);
            if r.0 != Token::Eof {
                lemma_comment_extends(s, u, p + 1);
                if r.0 == Token::Comment && p < r.1 <= s.len() {
                    lemma_lex_extends(s, u, r.1, ac, v);
                }
            }
        }
    }
}

/// A token that is complete within the text does not depend on what
/// follows it: with more text appended, the lexer reads the same token
/// (kind, place and error) from the same position.
pub proof fn lemma_lex_ignores_what_follows(s: Seq<u8>, t: Seq<u8>, p: int, ac: bool, v: bool)
    requires
        0 <= p <= s.len(),
        spec_lex(s, p, ac, v).tok != Token::Eof,
    ensures
        spec_lex(s + t, p, ac, v) == spec_lex(s, p, ac, v),
{
    lemma_lex_extends(s, s + t, p, ac, v);
}

/// `u` ends with `y`, which starts at `k`.
pub open spec fn ends_with_at(u: Seq<u8>, y: Seq<u8>, k: int) -> bool {
    0 <= k && u.len() == k + y.len() && forall|i: int| 0 <= i < y.len() ==> #[trigger] u[k + i]
        == y[i]
}

/// `o` with its positions moved by `k`.
pub open spec fn shifted(o: LexOut, k: int) -> LexOut {
    LexOut { start: o.start + k, end: o.end + k, ..o }
}

proof fn lemma_scan_end_tail(u: Seq<u8>, y: Seq<u8>, k: int, q: int, c: bool)
    requires
        ends_with_at(u, y, k),
        0 <= q,
    ensures
        spec_scan_end(u, k + q, c) == spec_scan_end(y, q, c) + k,
    decreases y.len() - q,
{
    if q < y.len() {
        assert(u[k + q] == y[q]);
        if !scan_stop(y[q], c) {
            lemma_scan_end_tail(u, y, k, q + 1, c);
            assert(k + q + 1 == k + (q + 1));
        }
    }
}

proof fn lemma_class_run_tail(u: Seq<u8>, y: Seq<u8>, k: int, q: int, n: int, hex: bool)
    requires
        ends_with_at(u, y, k),
        0 <= q,
    ensures
        spec_class_run(u, k + q, n, hex) == (
            spec_class_run(y, q, n, hex).0,
            spec_class_run(y, q, n, hex).1 + k,
        ),
    decreases n,
{
    if n > 0 && q < y.len() {
        assert(u[k + q] == y[q]);
        if (hex && is_hex(y[q])) || (!hex && is_cont(y[q])) {
            lemma_class_run_tail(u, y, k, q + 1, n - 1, hex);
            assert(k + q + 1 == k + (q + 1));
        }
    }
}

proof fn lemma_string_tail(u: Seq<u8>, y: Seq<u8>, k: int, q: int, esc: bool, v: bool)
    requires
        ends_with_at(u, y, k),
        0 <= q,
    ensures
        ({
            let r = spec_string(y, q, esc, v);
            spec_string(u, k + q, esc, v) == (r.0, r.1 + k, r.2)
        }),
    decreases y.len() - q,
{
    let len = y.len() as int;
    if q <= len {
        lemma_scan_end_tail(u, y, k, q, v);
        let e = spec_scan_end(y, q, v);
        if e >= q && e < len {
            let c = y[e];
            assert(u[k + e] == c);
            if c == 0x5c && e + 1 < len {
                assert(u[k + (e + 1)] == y[e + 1]);
                if y[e + 1] == 0x75 {
                    lemma_class_run_tail(u, y, k, e + 2, 4, true);
                    assert(k + e + 2 == k + (e + 2));
                    if e + 6 <= len {
                        lemma_string_tail(u, y, k, e + 6, true, v);
                        assert(k + e + 6 == k + (e + 6));
                    }
                } else if valid_escape(y[e + 1]) {
                    lemma_string_tail(u, y, k, e + 2, true, v);
                    assert(k + e + 2 == k + (e + 2));
                }
            } else if c != 0x22 && c != 0x5c && !invalid_json_char(c) {
                if !v {
                    lemma_string_tail(u, y, k, e + 1, esc, v);
                    assert(k + e + 1 == k + (e + 1));
                } else {
                    if utf8_need(c) >= 0 {
                        lemma_class_run_tail(u, y, k, e + 1, utf8_need(c), false);
                        assert(k + e + 1 == k + (e + 1));
                    }
                    let w = spec_utf8_char(y, e + 1, c);
                    if w.0 != Token::Eof && w.0 != Token::Error && e + 1 <= w.1 <= len {
                        lemma_string_tail(u, y, k, w.1, esc, v);
                    }
                }
            }
        }
    }
}

proof fn lemma_digits_end_tail(u: Seq<u8>, y: Seq<u8>, k: int, q: int)
    requires
        ends_with_at(u, y, k),
        0 <= q,
    ensures
        spec_digits_end(u, k + q) == spec_digits_end(y, q) + k,
    decreases y.len() - q,
{
    if q < y.len() {
        assert(u[k + q] == y[q]);
        if is_digit(y[q]) {
            lemma_digits_end_tail(u, y, k, q + 1);
            assert(k + q + 1 == k + (q + 1));
        }
    }
}

proof fn lemma_number_exp_tail(u: Seq<u8>, y: Seq<u8>, k: int, i2: int, dbl: bool)
    requires
        ends_with_at(u, y, k),
        0 <= i2 < y.len(),
    ensures
        ({
            let r = spec_number_exp(y, i2, dbl);
            spec_number_exp(u, k + i2, dbl) == (r.0, r.1 + k, r.2)
        }),
{
    let len = y.len() as int;
    assert(u[k + i2] == y[i2]);
    if (y[i2] == 0x65 || y[i2] == 0x45) && i2 + 1 < len {
        assert(u[k + (i2 + 1)] == y[i2 + 1]);
        let j = if y[i2 + 1] == 0x2b || y[i2 + 1] == 0x2d {
            i2 + 2
        } else {
            i2 + 1
        };
        if j < len {
            assert(u[k + j] == y[j]);
            lemma_digits_end_tail(u, y, k, j + 1);
            assert(k + j + 1 == k + (j + 1));
        }
    }
}

proof fn lemma_number_frac_tail(u: Seq<u8>, y: Seq<u8>, k: int, i1: int)
    requires
        ends_with_at(u, y, k),
        0 <= i1 < y.len(),
    ensures
        ({
            let r = spec_number_frac(y, i1);
            spec_number_frac(u, k + i1) == (r.0, r.1 + k, r.2)
        }),
{
    let len = y.len() as int;
    assert(u[k + i1] == y[i1]);
    if y[i1] == 0x2e {
        if i1 + 1 < len {
            lemma_digits_end_tail(u, y, k, i1 + 1);
            assert(k + i1 + 1 == k + (i1 + 1));
            lemma_digits_end_after(y, i1 + 1);
            let d = spec_digits_end(y, i1 + 1);
            if d < len && d != i1 + 1 {
                lemma_number_exp_tail(u, y, k, d, true);
            }
        }
    } else {
        lemma_number_exp_tail(u, y, k, i1, false);
    }
}

proof fn lemma_number_tail(u: Seq<u8>, y: Seq<u8>, k: int, q: int)
    requires
        ends_with_at(u, y, k),
        0 <= q < y.len(),
    ensures
        ({
            let r = spec_number(y, q);
            spec_number(u, k + q) == (r.0, r.1 + k, r.2)
        }),
{
    let len = y.len() as int;
    assert(u[k + q] == y[q]);
    let i0 = if y[q] == 0x2d {
        q + 1
    } else {
        q
    };
    if i0 < len {
        assert(u[k + i0] == y[i0]);
        if y[i0] == 0x30 {
            if i0 + 1 < len {
                lemma_number_frac_tail(u, y, k, i0 + 1);
                assert(k + i0 + 1 == k + (i0 + 1));
            }
        } else if is_digit(y[i0]) {
            lemma_digits_end_tail(u, y, k, i0 + 1);
            assert(k + i0 + 1 == k + (i0 + 1));
            lemma_digits_end_after(y, i0 + 1);
            let d = spec_digits_end(y, i0 + 1);
            if d < len {
                lemma_number_frac_tail(u, y, k, d);
            }
        }
    }
}

proof fn lemma_find_byte_tail(u: Seq<u8>, y: Seq<u8>, k: int, q: int, b: u8)
    requires
        ends_with_at(u, y, k),
        0 <= q,
    ensures
        spec_find_byte(u, k + q, b) == spec_find_byte(y, q, b) + k,
    decreases y.len() - q,
{
    if q < y.len() {
        assert(u[k + q] == y[q]);
        if y[q] != b {
            lemma_find_byte_tail(u, y, k, q + 1, b);
            assert(k + q + 1 == k + (q + 1));
        }
    }
}

proof fn lemma_find_close_tail(u: Seq<u8>, y: Seq<u8>, k: int, q: int)
    requires
        ends_with_at(u, y, k),
        0 <= q,
    ensures
        spec_find_close(u, k + q) == spec_find_close(y, q) + k,
    decreases y.len() - q,
{
    if q + 1 < y.len() {
        assert(u[k + q] == y[q]);
        assert(u[k + (q + 1)] == y[q + 1]);
        if !(y[q] == 0x2a && y[q + 1] == 0x2f) {
            lemma_find_close_tail(u, y, k, q + 1);
            assert(k + q + 1 == k + (q + 1));
        }
    }
}

proof fn lemma_comment_tail(u: Seq<u8>, y: Seq<u8>, k: int, q: int)
    requires
        ends_with_at(u, y, k),
        0 <= q,
    ensures
        ({
            let r = spec_comment(y, q);
            spec_comment(u, k + q) == (r.0, r.1 + k, r.2)
        }),
{
    if q < y.len() {
        assert(u[k + q] == y[q]);
        if y[q] == 0x2f {
            lemma_find_byte_tail(u, y, k, q + 1, 0x0a);
            assert(k + q + 1 == k + (q + 1));
        } else if y[q] == 0x2a {
            lemma_find_close_tail(u, y, k, q + 1);
            assert(k + q + 1 == k + (q + 1));
        }
    }
}

proof fn lemma_kw_tail(u: Seq<u8>, y: Seq<u8>, k: int, q: int, kw: Seq<u8>, i: int)
    requires
        ends_with_at(u, y, k),
        0 <= q,
        0 <= i,
    ensures
        spec_kw(u, k + q, kw, i) == (spec_kw(y, q, kw, i).0, spec_kw(y, q, kw, i).1 + k),
    decreases kw.len() - i,
{
    if i < kw.len() && q + i < y.len() {
        assert(u[k + (q + i)] == y[q + i]);
        if y[q + i] == kw[i] {
            lemma_kw_tail(u, y, k, q, kw, i + 1);
        }
    }
}

#[verifier::rlimit(60)]
proof fn lemma_lex_tail(u: Seq<u8>, y: Seq<u8>, k: int, q: int, ac: bool, v: bool)
    requires
        ends_with_at(u, y, k),
        0 <= q,
    ensures
        spec_lex(u, k + q, ac, v) == shifted(spec_lex(y, q, ac, v), k),
    decreases y.len() - q,
{
    if q < y.len() {
        let c = y[q];
        assert(u[k + q] == c);
        if is_ws(c) {
            lemma_lex_tail(u, y, k, q + 1, ac, v);
            assert(k + q + 1 == k + (q + 1));
        } else if c == 0x74 || c == 0x66 || c == 0x6e {
            lemma_kw_tail(u, y, k, q + 1, kw_rest(c), 0);
            assert(k + q + 1 == k + (q + 1));
        } else if c == 0x22 {
            lemma_string_tail(u, y, k, q + 1, false, v);
            assert(k + q + 1 == k + (q + 1));
        } else if c == 0x2d || is_digit(c) {
            lemma_number_tail(u, y, k, q);
        } else if c == 0x2f && ac {
            lemma_comment_tail(u, y, k, q + 1);
            assert(k + q + 1 == k + (q + 1));
            let r = spec_comment(y, q + 1);
            if r.0 == Token::Comment && q < r.1 <= y.len() {
                lemma_lex_tail(u, y, k, r.1, ac, v);
            }
        }
    }
}

/// What comes before a position does not matter to the lexer: lexing `y`
/// from `q` after some text `x` gives the token of lexing `y` alone,
/// placed after `x`.
pub proof fn lemma_lex_ignores_what_precedes(x: Seq<u8>, y: Seq<u8>, q: int, ac: bool, v: bool)
    requires
        0 <= q,
    ensures
        spec_lex(x + y, x.len() + q, ac, v) == shifted(spec_lex(y, q, ac, v), x.len() as int),
{
    let u = x + y;
    assert(ends_with_at(u, y, x.len() as int)) by {
        assert forall|i: int| 0 <= i < y.len() implies #[trigger] u[x.len() + i] == y[i] by {}
    }
    lemma_lex_tail(u, y, x.len() as int, q, ac, v);
}

proof fn lemma_eof_skip(s: Seq<u8>, u: Seq<u8>, p: int, ac: bool, v: bool)
    requires
        extends(s, u),
        0 <= p <= s.len(),
        spec_lex(s, p, ac, v).tok == Token::Eof,
    ensures
        p <= spec_lex(s, p, ac, v).start <= s.len(),
        spec_lex(u, p, ac, v) == spec_lex(u, spec_lex(s, p, ac, v).start, ac, v),
    decreases s.len() - p,
{
    if p < s.len() {
        let c = s[p];
        assert(u[p] == c);
        if is_ws(c) {
            lemma_eof_skip(s, u, p + 1, ac, v);
        } else if c == 0x2f && ac {
            let r = spec_comment(s, p + 1);
            if r.0 == Token::Comment && p < r.1 <= s.len() {
                lemma_comment_extends(s, u, p + 1);
                lemma_eof_skip(s, u, r.1, ac, v);
            }
        }
    }
}

/// A token cut off by the end of the text is read whole once the rest
/// follows: lexing the two texts together from `p` reads the token that
/// lexing, from its start, the unfinished token followed by the next text
/// reads, moved to where the unfinished token starts.
#[verifier::rlimit(80)]
pub proof fn lemma_lex_resumes(s: Seq<u8>, t: Seq<u8>, p: int, ac: bool, v: bool)
    requires
        0 <= p <= s.len(),
        spec_lex(s, p, ac, v).tok == Token::Eof,
    ensures
        ({
            let st = spec_lex(s, p, ac, v).start;
            spec_lex(s + t, p, ac, v) == shifted(
                spec_lex(s.subrange(st, s.len() as int) + t, 0, ac, v),
                st,
            )
        }),
{
    let o = spec_lex(s, p, ac, v);
    let st = o.start;
    let u = s + t;
    assert(extends(s, u)) by {
        assert forall|i: int| 0 <= i < s.len() implies #[trigger] u[i] == s[i] by {}
    }
    lemma_eof_skip(s, u, p, ac, v);
    let x = s.subrange(0, st);
    let y = s.subrange(st, s.len() as int) + t;
    assert(x + y =~= u);
    lemma_lex_ignores_what_precedes(x, y, 0, ac, v);
}

proof fn lemma_scan_end_bounds(s: Seq<u8>, p: int, c: bool)
    requires
        0 <= p <= s.len(),
    ensures
        p <= spec_scan_end(s, p, c) <= s.len(),
    decreases s.len() - p,
{
    if p < s.len() && !scan_stop(s[p], c) {
        lemma_scan_end_bounds(s, p + 1, c);
    }
}

proof fn lemma_digits_end_bounds(s: Seq<u8>, p: int)
    requires
        0 <= p <= s.len(),
    ensures
        p <= spec_digits_end(s, p) <= s.len(),
    decreases s.len() - p,
{
    if p < s.len() && is_digit(s[p]) {
        lemma_digits_end_bounds(s, p + 1);
    }
}

proof fn lemma_find_byte_bounds(s: Seq<u8>, p: int, b: u8)
    requires
        0 <= p,
    ensures
        p <= spec_find_byte(s, p, b) || spec_find_byte(s, p, b) == s.len(),
    decreases s.len() - p,
{
    if p < s.len() && s[p] != b {
        lemma_find_byte_bounds(s, p + 1, b);
    }
}

proof fn lemma_find_close_bounds(s: Seq<u8>, p: int)
    requires
        0 <= p,
    ensures
        p <= spec_find_close(s, p) || spec_find_close(s, p) == s.len(),
    decreases s.len() - p,
{
    if p + 1 < s.len() && !(s[p] == 0x2a && s[p + 1] == 0x2f) {
        lemma_find_close_bounds(s, p + 1);
    }
}

proof fn lemma_class_run_bounds(s: Seq<u8>, p: int, n: int, hex: bool)
    requires
        0 <= p,
        0 <= n,
    ensures
        spec_class_run(s, p, n, hex).0 == Token::String || spec_class_run(s, p, n, hex).0
            == Token::Eof || spec_class_run(s, p, n, hex).0 == Token::Error,
        spec_class_run(s, p, n, hex).0 == Token::String ==> spec_class_run(s, p, n, hex).1 == p + n,
        spec_class_run(s, p, n, hex).0 == Token::String && p <= s.len() ==> spec_class_run(
            s,
            p,
            n,
            hex,
        ).1 <= s.len(),
    decreases n,
{
    if n > 0 && p < s.len() && ((hex && is_hex(s[p])) || (!hex && is_cont(s[p]))) {
        lemma_class_run_bounds(s, p + 1, n - 1, hex);
    }
}

proof fn lemma_string_bounds(s: Seq<u8>, p: int, esc: bool, v: bool)
    requires
        0 <= p,
    ensures
        ({
            let r = spec_string(s, p, esc, v);
            &&& r.0 == Token::Eof || r.0 == Token::Error || r.0 == Token::String || r.0
                == Token::StringWithEscapes
            &&& (r.0 == Token::String || r.0 == Token::StringWithEscapes) ==> p < r.1 <= s.len()
                && spec_scan_end(s, p, v) < r.1
        }),
    decreases s.len() - p,
{
    let len = s.len() as int;
    if p <= len {
        lemma_scan_end_bounds(s, p, v);
        let q = spec_scan_end(s, p, v);
        if q < len {
            let c = s[q];
            if c == 0x5c && q + 1 < len {
                if s[q + 1] == 0x75 {
                    if q + 6 <= len {
                        lemma_string_bounds(s, q + 6, true, v);
                    }
                } else if valid_escape(s[q + 1]) {
                    lemma_string_bounds(s, q + 2, true, v);
                }
            } else if c != 0x22 && c != 0x5c && !invalid_json_char(c) {
                if !v {
                    lemma_string_bounds(s, q + 1, esc, v);
                } else {
                    let w = spec_utf8_char(s, q + 1, c);
                    if w.0 != Token::Eof && w.0 != Token::Error && q + 1 <= w.1 <= len {
                        lemma_string_bounds(s, w.1, esc, v);
                    }
                }
            }
        }
    }
}

proof fn lemma_number_exp_bounds(s: Seq<u8>, i2: int, dbl: bool)
    requires
        0 <= i2 < s.len(),
    ensures
        ({
            let r = spec_number_exp(s, i2, dbl);
            &&& r.0 == Token::Eof || r.0 == Token::Error || r.0 == Token::Integer || r.0
                == Token::Double
            &&& (r.0 == Token::Integer || r.0 == Token::Double) ==> i2 <= r.1 <= s.len()
        }),
{
    let len = s.len() as int;
    if (s[i2] == 0x65 || s[i2] == 0x45) && i2 + 1 < len {
        let k = if s[i2 + 1] == 0x2b || s[i2 + 1] == 0x2d {
            i2 + 2
        } else {
            i2 + 1
        };
        if k < len {
            lemma_digits_end_bounds(s, k + 1);
        }
    }
}

proof fn lemma_number_frac_bounds(s: Seq<u8>, i1: int)
    requires
        0 <= i1 < s.len(),
    ensures
        ({
            let r = spec_number_frac(s, i1);
            &&& r.0 == Token::Eof || r.0 == Token::Error || r.0 == Token::Integer || r.0
                == Token::Double
            &&& (r.0 == Token::Integer || r.0 == Token::Double) ==> i1 <= r.1 <= s.len()
        }),
{
    let len = s.len() as int;
    if s[i1] == 0x2e {
        if i1 + 1 < len {
            lemma_digits_end_bounds(s, i1 + 1);
            let d = spec_digits_end(s, i1 + 1);
            if d < len {
                lemma_number_exp_bounds(s, d, true);
            }
        }
    } else {
        lemma_number_exp_bounds(s, i1, false);
    }
}

proof fn lemma_number_bounds(s: Seq<u8>, p: int)
    requires
        0 <= p < s.len(),
    ensures
        ({
            let r = spec_number(s, p);
            let i0 = if s[p] == 0x2d {
                p + 1
            } else {
                p
            };
            &&& r.0 == Token::Eof || r.0 == Token::Error || r.0 == Token::Integer || r.0
                == Token::Double
            &&& (r.0 == Token::Integer || r.0 == Token::Double) ==> i0 < r.1 <= s.len()
        }),
{
    let len = s.len() as int;
    let i0 = if s[p] == 0x2d {
        p + 1
    } else {
        p
    };
    if i0 < len {
        if s[i0] == 0x30 {
            if i0 + 1 < len {
                lemma_number_frac_bounds(s, i0 + 1);
            }
        } else if is_digit(s[i0]) {
            lemma_digits_end_bounds(s, i0 + 1);
            let d = spec_digits_end(s, i0 + 1);
            if d < len {
                lemma_number_frac_bounds(s, d);
            }
        }
    }
}

proof fn lemma_kw_bounds(s: Seq<u8>, p: int, kw: Seq<u8>, i: int)
    requires
        0 <= i,
    ensures
        spec_kw(s, p, kw, i).0 == Token::Bool || spec_kw(s, p, kw, i).0 == Token::Eof || spec_kw(
            s,
            p,
            kw,
            i,
        ).0 == Token::Error,
        spec_kw(s, p, kw, i).0 == Token::Bool ==> spec_kw(s, p, kw, i).1 == p + kw.len(),
        spec_kw(s, p, kw, i).0 == Token::Bool && i < kw.len() ==> p + kw.len() <= s.len(),
    decreases kw.len() - i,
{
    if i < kw.len() && p + i < s.len() && s[p + i] == kw[i] {
        lemma_kw_bounds(s, p, kw, i + 1);
    }
}

/// Where a token lies: a token read from `p` starts at or after `p` and ends
/// within the text, after its start (a string after both its quotes); when
/// the text ends first, the unfinished token starts at or after `p`.
pub proof fn lemma_lex_bounds(s: Seq<u8>, p: int, ac: bool, v: bool)
    requires
        0 <= p,
    ensures
        ({
            let o = spec_lex(s, p, ac, v);
            &&& o.tok != Token::Eof && o.tok != Token::Error ==> p <= o.start < o.end <= s.len()
            &&& o.tok != Token::Comment
            &&& (o.tok == Token::String || o.tok == Token::StringWithEscapes) ==> o.start + 2
                <= o.end
            &&& o.tok == Token::Eof && p <= s.len() ==> p <= o.start <= s.len()
        }),
    decreases s.len() - p,
{
    if p < s.len() {
        let c = s[p];
        if is_ws(c) {
            lemma_lex_bounds(s, p + 1, ac, v);
        } else if c == 0x74 || c == 0x66 || c == 0x6e {
            lemma_kw_bounds(s, p + 1, kw_rest(c), 0);
        } else if c == 0x22 {
            lemma_string_bounds(s, p + 1, false, v);
        } else if c == 0x2d || is_digit(c) {
            lemma_number_bounds(s, p);
        } else if c == 0x2f && ac {
            let r = spec_comment(s, p + 1);
            if r.0 == Token::Comment && p < r.1 <= s.len() {
                lemma_lex_bounds(s, r.1, ac, v);
            }
        }
    }
}

proof fn lemma_scan_end_reach(s: Seq<u8>, u: Seq<u8>, p: int, c: bool)
    requires
        extends(s, u),
        0 <= p,
        spec_scan_end(s, p, c) >= s.len(),
    ensures
        spec_scan_end(u, p, c) >= s.len(),
    decreases s.len() - p,
{
    if p < s.len() {
        assert(u[p] == s[p]);
        lemma_scan_end_reach(s, u, p + 1, c);
    } else if p <= u.len() {
        lemma_scan_end_bounds(u, p, c);
    }
}

proof fn lemma_digits_end_reach(s: Seq<u8>, u: Seq<u8>, p: int)
    requires
        extends(s, u),
        0 <= p,
        spec_digits_end(s, p) >= s.len(),
    ensures
        spec_digits_end(u, p) >= s.len(),
    decreases s.len() - p,
{
    if p < s.len() {
        assert(u[p] == s[p]);
        lemma_digits_end_reach(s, u, p + 1);
    } else if p <= u.len() {
        lemma_digits_end_bounds(u, p);
    }
}

proof fn lemma_find_byte_reach(s: Seq<u8>, u: Seq<u8>, p: int, b: u8)
    requires
        extends(s, u),
        0 <= p,
        spec_find_byte(s, p, b) >= s.len(),
    ensures
        spec_find_byte(u, p, b) >= s.len(),
    decreases s.len() - p,
{
    if p < s.len() {
        assert(u[p] == s[p]);
        lemma_find_byte_reach(s, u, p + 1, b);
    } else {
        lemma_find_byte_bounds(u, p, b);
    }
}

proof fn lemma_find_close_reach(s: Seq<u8>, u: Seq<u8>, p: int)
    requires
        extends(s, u),
        0 <= p,
        spec_find_close(s, p) >= s.len(),
    ensures
        spec_find_close(u, p) + 1 >= s.len(),
    decreases s.len() - p,
{
    if p + 1 < s.len() {
        assert(u[p] == s[p]);
        assert(u[p + 1] == s[p + 1]);
        lemma_find_close_reach(s, u, p + 1);
    } else {
        lemma_find_close_bounds(u, p);
    }
}

proof fn lemma_class_run_reach(s: Seq<u8>, u: Seq<u8>, p: int, n: int, hex: bool)
    requires
        extends(s, u),
        0 <= p,
        spec_class_run(s, p, n, hex).0 == Token::Eof,
    ensures
        spec_class_run(u, p, n, hex).0 == Token::String ==> spec_class_run(u, p, n, hex).1 > s.len(),
    decreases n,
{
    if p < s.len() {
        assert(u[p] == s[p]);
        lemma_class_run_reach(s, u, p + 1, n - 1, hex);
    } else {
        lemma_class_run_bounds(u, p, n, hex);
    }
}

proof fn lemma_string_reach(s: Seq<u8>, u: Seq<u8>, p: int, esc: bool, v: bool)
    requires
        extends(s, u),
        0 <= p,
        spec_string(s, p, esc, v).0 == Token::Eof,
    ensures
        ({
            let r = spec_string(u, p, esc, v);
            (r.0 == Token::String || r.0 == Token::StringWithEscapes) ==> r.1 >= s.len()
        }),
    decreases s.len() - p,
{
    let len = s.len() as int;
    lemma_string_bounds(u, p, esc, v);
    if p <= len {
        lemma_scan_end_bounds(s, p, v);
        let q = spec_scan_end(s, p, v);
        if q >= len {
            lemma_scan_end_reach(s, u, p, v);
        } else {
            lemma_scan_end_extends(s, u, p, v);
            let c = s[q];
            assert(u[q] == c);
            if c == 0x5c {
                if q + 1 >= len {
                    if q + 1 < u.len() {
                        if u[q + 1] == 0x75 {
                            lemma_string_bounds(u, q + 6, true, v);
                        } else {
                            lemma_string_bounds(u, q + 2, true, v);
                        }
                    }
                } else {
                    assert(u[q + 1] == s[q + 1]);
                    if s[q + 1] == 0x75 {
                        let h = spec_class_run(s, q + 2, 4, true);
                        if h.0 == Token::Eof {
                            lemma_class_run_reach(s, u, q + 2, 4, true);
                            lemma_class_run_bounds(u, q + 2, 4, true);
                            lemma_string_bounds(u, q + 6, true, v);
                        } else {
                            lemma_class_run_extends(s, u, q + 2, 4, true);
                            if q + 6 <= len {
                                lemma_string_reach(s, u, q + 6, true, v);
                            } else {
                                lemma_string_bounds(u, q + 6, true, v);
                            }
                        }
                    } else if valid_escape(s[q + 1]) {
                        lemma_string_reach(s, u, q + 2, true, v);
                    }
                }
            } else if c != 0x22 && !invalid_json_char(c) {
                if !v {
                    lemma_string_reach(s, u, q + 1, esc, v);
                } else {
                    let w = spec_utf8_char(s, q + 1, c);
                    let w2 = spec_utf8_char(u, q + 1, c);
                    if w.0 == Token::Eof {
                        if utf8_need(c) >= 0 {
                            lemma_class_run_reach(s, u, q + 1, utf8_need(c), false);
                            lemma_class_run_bounds(u, q + 1, utf8_need(c), false);
                        }
                        if w2.0 != Token::Eof && w2.0 != Token::Error && q + 1 <= w2.1 {
                            lemma_string_bounds(u, w2.1, esc, v);
                        }
                    } else {
                        if utf8_need(c) >= 0 {
                            lemma_class_run_extends(s, u, q + 1, utf8_need(c), false);
                        }
                        if w.0 != Token::Error && q + 1 <= w.1 <= len {
                            lemma_string_reach(s, u, w.1, esc, v);
                        } else if w.0 != Token::Error && q + 1 <= w.1 {
                            lemma_string_bounds(u, w.1, esc, v);
                        }
                    }
                }
            }
        }
    }
}

proof fn lemma_number_exp_reach(s: Seq<u8>, u: Seq<u8>, i2: int, dbl: bool)
    requires
        extends(s, u),
        0 <= i2 < s.len(),
        spec_number_exp(s, i2, dbl).0 == Token::Eof,
    ensures
        ({
            let r = spec_number_exp(u, i2, dbl);
            (r.0 == Token::Integer || r.0 == Token::Double) ==> r.1 >= s.len()
        }),
{
    let len = s.len() as int;
    assert(u[i2] == s[i2]);
    if i2 + 1 < len {
        assert(u[i2 + 1] == s[i2 + 1]);
    }
    if i2 + 1 < u.len() {
        let k = if u[i2 + 1] == 0x2b || u[i2 + 1] == 0x2d {
            i2 + 2
        } else {
            i2 + 1
        };
        if k < len {
            assert(u[k] == s[k]);
            lemma_digits_end_reach(s, u, k + 1);
        } else if k < u.len() {
            lemma_digits_end_bounds(u, k + 1);
        }
    }
}

proof fn lemma_number_frac_reach(s: Seq<u8>, u: Seq<u8>, i1: int)
    requires
        extends(s, u),
        0 <= i1 < s.len(),
        spec_number_frac(s, i1).0 == Token::Eof,
    ensures
        ({
            let r = spec_number_frac(u, i1);
            (r.0 == Token::Integer || r.0 == Token::Double) ==> r.1 >= s.len()
        }),
{
    let len = s.len() as int;
    assert(u[i1] == s[i1]);
    if s[i1] == 0x2e {
        if i1 + 1 >= len {
            if i1 + 1 < u.len() {
                lemma_digits_end_bounds(u, i1 + 1);
                let d = spec_digits_end(u, i1 + 1);
                if d < u.len() {
                    lemma_number_exp_bounds(u, d, true);
                }
            }
        } else {
            let d = spec_digits_end(s, i1 + 1);
            lemma_digits_end_bounds(s, i1 + 1);
            if d >= len {
                lemma_digits_end_reach(s, u, i1 + 1);
                let d2 = spec_digits_end(u, i1 + 1);
                if d2 < u.len() {
                    lemma_number_exp_bounds(u, d2, true);
                }
            } else {
                lemma_digits_end_extends(s, u, i1 + 1);
                lemma_number_exp_reach(s, u, d, true);
            }
        }
    } else {
        lemma_number_exp_reach(s, u, i1, false);
    }
}

proof fn lemma_number_reach(s: Seq<u8>, u: Seq<u8>, p: int)
    requires
        extends(s, u),
        0 <= p < s.len(),
        spec_number(s, p).0 == Token::Eof,
    ensures
        ({
            let r = spec_number(u, p);
            (r.0 == Token::Integer || r.0 == Token::Double) ==> r.1 >= s.len()
        }),
{
    let len = s.len() as int;
    assert(u[p] == s[p]);
    lemma_number_bounds(u, p);
    let i0 = if s[p] == 0x2d {
        p + 1
    } else {
        p
    };
    if i0 < len {
        assert(u[i0] == s[i0]);
        if s[i0] == 0x30 {
            if i0 + 1 >= len {
                if i0 + 1 < u.len() {
                    lemma_number_frac_bounds(u, i0 + 1);
                }
            } else {
                lemma_number_frac_reach(s, u, i0 + 1);
            }
        } else if is_digit(s[i0]) {
            lemma_digits_end_bounds(s, i0 + 1);
            let d = spec_digits_end(s, i0 + 1);
            if d >= len {
                lemma_digits_end_reach(s, u, i0 + 1);
                let d2 = spec_digits_end(u, i0 + 1);
                if d2 < u.len() {
                    lemma_number_frac_bounds(u, d2);
                }
            } else {
                lemma_digits_end_extends(s, u, i0 + 1);
                lemma_number_frac_reach(s, u, d);
            }
        }
    }
}

proof fn lemma_comment_reach(s: Seq<u8>, u: Seq<u8>, p: int)
    requires
        extends(s, u),
        0 <= p,
        spec_comment(s, p).0 == Token::Eof,
    ensures
        spec_comment(u, p).0 == Token::Comment ==> spec_comment(u, p).1 >= s.len(),
{
    let len = s.len() as int;
    if p >= len {
        lemma_find_byte_bounds(u, p + 1, 0x0a);
        lemma_find_close_bounds(u, p + 1);
    } else {
        assert(u[p] == s[p]);
        if s[p] == 0x2f {
            lemma_find_byte_reach(s, u, p + 1, 0x0a);
        } else if s[p] == 0x2a {
            lemma_find_close_reach(s, u, p + 1);
        }
    }
}

proof fn lemma_kw_reach(s: Seq<u8>, u: Seq<u8>, p: int, kw: Seq<u8>, i: int)
    requires
        extends(s, u),
        0 <= p,
        0 <= i,
        spec_kw(s, p, kw, i).0 == Token::Eof,
    ensures
        spec_kw(u, p, kw, i).0 == Token::Bool ==> spec_kw(u, p, kw, i).1 > s.len(),
    decreases kw.len() - i,
{
    lemma_kw_bounds(u, p, kw, i);
    if i < kw.len() && p + i < s.len() {
        assert(u[p + i] == s[p + i]);
        lemma_kw_reach(s, u, p, kw, i + 1);
    }
}

proof fn lemma_lex_reach(s: Seq<u8>, u: Seq<u8>, p: int, ac: bool, v: bool)
    requires
        extends(s, u),
        0 <= p,
        spec_lex(s, p, ac, v).tok == Token::Eof,
    ensures
        ({
            let o = spec_lex(u, p, ac, v);
            o.tok == Token::Eof || o.tok == Token::Error || o.end >= s.len()
        }),
    decreases s.len() - p,
{
    lemma_lex_bounds(u, p, ac, v);
    if p < s.len() {
        let c = s[p];
        assert(u[p] == c);
        if is_ws(c) {
            lemma_lex_reach(s, u, p + 1, ac, v);
        } else if c == 0x74 || c == 0x66 || c == 0x6e {
            lemma_kw_reach(s, u, p + 1, kw_rest(c), 0);
        } else if c == 0x22 {
            lemma_string_reach(s, u, p + 1, false, v);
            lemma_string_bounds(u, p + 1, false, v);
        } else if c == 0x2d || is_digit(c) {
            lemma_number_reach(s, u, p);
            lemma_number_bounds(u, p);
        } else if c == 0x2f && ac {
            let r = spec_comment(s, p + 1);
            let r2 = spec_comment(u, p + 1);
            if r.0 == Token::Eof {
                lemma_comment_reach(s, u, p + 1);
            } else {
                lemma_comment_extends(s, u, p + 1);
            }
            if r.0 == Token::Comment && p < r.1 <= s.len() {
                lemma_lex_reach(s, u, r.1, ac, v);
            } else if r2.0 == Token::Comment && p < r2.1 <= u.len() {
                lemma_lex_bounds(u, r2.1, ac, v);
            }
        }
    }
}

/// A token cut off by the end of the text ends, once more text follows,
/// no earlier than where the text ended (unless it turns out to be an error).
pub proof fn lemma_cut_token_reaches_end(s: Seq<u8>, t: Seq<u8>, p: int, ac: bool, v: bool)
    requires
        0 <= p,
        spec_lex(s, p, ac, v).tok == Token::Eof,
    ensures
        ({
            let o = spec_lex(s + t, p, ac, v);
            o.tok == Token::Eof || o.tok == Token::Error || o.end >= s.len()
        }),
{
    let u = s + t;
    assert(extends(s, u)) by {
        assert forall|i: int| 0 <= i < s.len() implies #[trigger] u[i] == s[i] by {}
    }
    lemma_lex_reach(s, u, p, ac, v);
}

proof fn lemma_kw_matches(s: Seq<u8>, p: int, kw: Seq<u8>, i: int)
    requires
        0 <= p,
        0 <= i,
        spec_kw(s, p, kw, i).0 == Token::Bool,
    ensures
        i < kw.len() ==> p + kw.len() <= s.len(),
        forall|k: int| i <= k < kw.len() ==> #[trigger] s[p + k] == kw[k],
    decreases kw.len() - i,
{
    if i < kw.len() {
        lemma_kw_matches(s, p, kw, i + 1);
    }
}

/// The text of a keyword token is the keyword: `true` or `false` for a
/// boolean, `null` for a null.
pub proof fn lemma_keyword_text(s: Seq<u8>, p: int, ac: bool, v: bool)
    requires
        0 <= p,
    ensures
        ({
            let o = spec_lex(s, p, ac, v);
            let t = spec_token_text(s, o);
            &&& o.tok == Token::Bool ==> t == seq![0x74u8, 0x72, 0x75, 0x65] || t == seq![
                0x66u8,
                0x61,
                0x6c,
                0x73,
                0x65,
            ]
            &&& o.tok == Token::Null ==> t == seq![0x6eu8, 0x75, 0x6c, 0x6c]
        }),
    decreases s.len() - p,
{
    if p < s.len() {
        let c = s[p];
        if is_ws(c) {
            lemma_keyword_text(s, p + 1, ac, v);
        } else if c == 0x74 || c == 0x66 || c == 0x6e {
            let kw = kw_rest(c);
            lemma_kw_bounds(s, p + 1, kw, 0);
            let k = spec_kw(s, p + 1, kw, 0);
            if k.0 == Token::Bool {
                lemma_kw_matches(s, p + 1, kw, 0);
                assert(kw.len() == 3 || kw.len() == 4);
                let t = s.subrange(p, p + 1 + kw.len());
                assert(forall|i: int| 1 <= i < t.len() ==> t[i] == s[p + 1 + (i - 1)]);
                if c == 0x74 {
                    assert(t =~= seq![0x74u8, 0x72, 0x75, 0x65]);
                } else if c == 0x66 {
                    assert(t =~= seq![0x66u8, 0x61, 0x6c, 0x73, 0x65]);
                } else {
                    assert(t =~= seq![0x6eu8, 0x75, 0x6c, 0x6c]);
                }
            }
        } else if c == 0x22 {
            lemma_string_bounds(s, p + 1, false, v);
        } else if c == 0x2d || is_digit(c) {
            lemma_number_bounds(s, p);
        } else if c == 0x2f && ac {
            let r = spec_comment(s, p + 1);
            if r.0 == Token::Comment && p < r.1 <= s.len() {
                lemma_keyword_text(s, r.1, ac, v);
            }
        }
    }
}

/// One of the escapes JSON allows after a backslash, other than `\\u`:
/// `\"`, `\\`, `\/`, `\b`, `\f`, `\n`, `\r`, `\t`.
pub open spec fn json_escape_letter(c: u8) -> bool {
    ||| c == 0x62
    ||| c == 0x66
    ||| c == 0x6e
    ||| c == 0x72
    ||| c == 0x74
    ||| c == 0x22
    ||| c == 0x5c
    ||| c == 0x2f
}

/// Four hexadecimal digits at `p`, in either case.
pub open spec fn four_hex_digits(s: Seq<u8>, p: int) -> bool {
    p + 4 <= s.len() && forall|k: int|
        p <= k < p + 4 ==> (0x30 <= #[trigger] s[k] <= 0x39) || (0x61 <= s[k] <= 0x66) || (0x41
            <= s[k] <= 0x46)
}

proof fn lemma_hex_run(s: Seq<u8>, p: int, n: int)
    requires
        0 <= p,
        0 <= n,
        p + n <= s.len(),
        forall|k: int|
            p <= k < p + n ==> (0x30 <= #[trigger] s[k] <= 0x39) || (0x61 <= s[k] <= 0x66) || (0x41
                <= s[k] <= 0x46),
    ensures
        spec_class_run(s, p, n, true) == (Token::String, p + n),
    decreases n,
{
    if n > 0 {
        lemma_hex_run(s, p + 1, n - 1);
    }
}

/// Inside a string, every escape JSON allows is read on past: after a
/// backslash and one of `" \ / b f n r t` the string goes on two bytes
/// later, and after `\u` and four hexadecimal digits six bytes later, now
/// as a string with escapes; neither is ever an error.
pub proof fn lemma_json_escapes_read_on(s: Seq<u8>, p: int, esc: bool, v: bool)
    requires
        0 <= p,
        p + 1 < s.len(),
        s[p] == 0x5c,
    ensures
        json_escape_letter(s[p + 1]) ==> spec_string(s, p, esc, v) == spec_string(s, p + 2, true, v),
        s[p + 1] == 0x75 && four_hex_digits(s, p + 2) ==> spec_string(s, p, esc, v) == spec_string(
            s,
            p + 6,
            true,
            v,
        ),
{
    lemma_scan_end(s, p, p, v);
    if s[p + 1] == 0x75 && four_hex_digits(s, p + 2) {
        lemma_hex_run(s, p + 2, 4);
    }
}

/// A string holding one escape is one token, a string with escapes: a
/// quote, a backslash, one of `" \ / b f n r t` and a quote, or a quote,
/// `\u`, four hexadecimal digits and a quote.
pub proof fn lemma_escaped_string_token(s: Seq<u8>, p: int, ac: bool, v: bool)
    requires
        0 <= p,
        p + 3 < s.len(),
        s[p] == 0x22,
        s[p + 1] == 0x5c,
    ensures
        json_escape_letter(s[p + 2]) && s[p + 3] == 0x22 ==> spec_lex(s, p, ac, v) == (LexOut {
            tok: Token::StringWithEscapes,
            start: p,
            end: p + 4,
            err: LexError::NoError,
        }),
        s[p + 2] == 0x75 && four_hex_digits(s, p + 3) && p + 7 < s.len() && s[p + 7] == 0x22
            ==> spec_lex(s, p, ac, v) == (LexOut {
            tok: Token::StringWithEscapes,
            start: p,
            end: p + 8,
            err: LexError::NoError,
        }),
{
    lemma_json_escapes_read_on(s, p + 1, false, v);
    if json_escape_letter(s[p + 2]) && s[p + 3] == 0x22 {
        lemma_scan_end(s, p + 3, p + 3, v);
    }
    if s[p + 2] == 0x75 && four_hex_digits(s, p + 3) && p + 7 < s.len() && s[p + 7] == 0x22 {
        lemma_scan_end(s, p + 7, p + 7, v);
    }
}

impl RLexer {
    /// A lexer that holds an unfinished token, handed the next chunk, reads
    /// the token that lexing the first stream and the next chunk together
    /// would read, moved to where the unfinished token starts; with
    /// `lemma_lex_ignores_what_follows` for tokens that ended inside the
    /// first chunk, lexing chunk by chunk reads what lexing the whole text
    /// reads.
    pub proof fn lemma_lexer_resumes(self, text1: Seq<u8>, off: int, next: RLexer, text2: Seq<u8>)
        requires
            0 <= off <= text1.len(),
            self.after(text1, off, next),
            self.next(text1, off).tok == Token::Eof,
        ensures
            spec_lex(
                self.stream(text1, off) + text2,
                self.stream_base(off),
                self.comments_allowed(),
                self.validates_utf8(),
            ) == shifted(next.next(text2, 0), self.next(text1, off).start),
    {
        let st = self.stream(text1, off);
        assert(text2.subrange(0, text2.len() as int) =~= text2);
        lemma_lex_resumes(
            st,
            text2,
            self.stream_base(off),
            self.comments_allowed(),
            self.validates_utf8(),
        );
    }
}

} // verus!
