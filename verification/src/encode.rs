use vstd::prelude::*;

use crate::lexer::{four_hex_digits, is_cont, utf8_need};

verus! {

/// The upper-case hexadecimal digit for `n` (below 16).
pub open spec fn hex_digit(n: u8) -> u8 {
    if n < 10 {
        (0x30 + n) as u8
    } else {
        (0x41 + n - 10) as u8
    }
}

/// How one byte is written inside a JSON string: the named escapes for
/// carriage return, newline, backslash, quote, form feed, backspace and tab,
/// `\/` for the solidus when asked, `\u00XX` for other control characters,
/// and the byte itself otherwise.
pub open spec fn spec_escape(b: u8, escape_solidus: bool) -> Seq<u8> {
    if b == 0x0d {
        seq![0x5cu8, 0x72u8]
    } else if b == 0x0a {
        seq![0x5cu8, 0x6eu8]
    } else if b == 0x5c {
        seq![0x5cu8, 0x5cu8]
    } else if b == 0x2f && escape_solidus {
        seq![0x5cu8, 0x2fu8]
    } else if b == 0x22 {
        seq![0x5cu8, 0x22u8]
    } else if b == 0x0c {
        seq![0x5cu8, 0x66u8]
    } else if b == 0x08 {
        seq![0x5cu8, 0x62u8]
    } else if b == 0x09 {
        seq![0x5cu8, 0x74u8]
    } else if b < 0x20 {
        seq![0x5cu8, 0x75u8, 0x30u8, 0x30u8, hex_digit(b / 16), hex_digit(b % 16)]
    } else {
        seq![b]
    }
}

/// The escaped form of a whole byte string.
pub open spec fn spec_encode(s: Seq<u8>, escape_solidus: bool) -> Seq<u8>
    decreases s.len(),
{
    if s.len() == 0 {
        Seq::empty()
    } else {
        spec_escape(s[0], escape_solidus) + spec_encode(s.drop_first(), escape_solidus)
    }
}

/// Writes the two upper-case hex digits of `c`.
pub fn char_to_hex(c: u8) -> (r: (u8, u8))
    ensures
        r.0 == hex_digit(c / 16),
        r.1 == hex_digit(c % 16),
{
    let hi = c / 16;
    let lo = c % 16;
    let h = if hi < 10 {
        0x30 + hi
    } else {
        0x41 + hi - 10
    };
    let l = if lo < 10 {
        0x30 + lo
    } else {
        0x41 + lo - 10
    };
    (h, l)
}

proof fn lemma_encode_push(s: Seq<u8>, b: u8, sol: bool)
    ensures
        spec_encode(s.push(b), sol) == spec_encode(s, sol) + spec_escape(b, sol),
    decreases s.len(),
{
    if s.len() == 0 {
        assert(s.push(b).drop_first() == Seq::<u8>::empty());
        assert(spec_encode(Seq::<u8>::empty(), sol) == Seq::<u8>::empty());
        assert(spec_escape(b, sol) + Seq::<u8>::empty() == spec_escape(b, sol));
        assert(Seq::<u8>::empty() + spec_escape(b, sol) == spec_escape(b, sol));
    } else {
        lemma_encode_push(s.drop_first(), b, sol);
        assert(s.push(b).drop_first() == s.drop_first().push(b));
        assert(s.push(b)[0] == s[0]);
        assert(spec_escape(s[0], sol) + (spec_encode(s.drop_first(), sol) + spec_escape(b, sol))
            == (spec_escape(s[0], sol) + spec_encode(s.drop_first(), sol)) + spec_escape(b, sol));
    }
}

/// Appends the escaped form of `s` (the inside of a JSON string) to `out`;
/// `escape_solidus` asks for `/` to be written as `\/`.
pub fn yajl_string_encode(out: &mut Vec<u8>, s: &[u8], escape_solidus: bool)
    ensures
        final(out)@ == old(out)@ + spec_encode(s@, escape_solidus),
{
    let mut i: usize = 0;
    while i < s.len()
        invariant
            i <= s.len(),
            out@ == old(out)@ + spec_encode(s@.subrange(0, i as int), escape_solidus),
        decreases s.len() - i,
    {
        let b = s[i];
        let ghost before = out@;
        if b == 0x0d {
            out.push(0x5c);
            out.push(0x72);
        } else if b == 0x0a {
            out.push(0x5c);
            out.push(0x6e);
        } else if b == 0x5c {
            out.push(0x5c);
            out.push(0x5c);
        } else if b == 0x2f && escape_solidus {
            out.push(0x5c);
            out.push(0x2f);
        } else if b == 0x22 {
            out.push(0x5c);
            out.push(0x22);
        } else if b == 0x0c {
            out.push(0x5c);
            out.push(0x66);
        } else if b == 0x08 {
            out.push(0x5c);
            out.push(0x62);
        } else if b == 0x09 {
            out.push(0x5c);
            out.push(0x74);
        } else if b < 0x20 {
            let (h, l) = char_to_hex(b);
            out.push(0x5c);
            out.push(0x75);
            out.push(0x30);
            out.push(0x30);
            out.push(h);
            out.push(l);
        } else {
            out.push(b);
        }
        proof {
            assert(out@ == before + spec_escape(b, escape_solidus));
            assert(s@.subrange(0, i + 1) == s@.subrange(0, i as int).push(b));
            lemma_encode_push(s@.subrange(0, i as int), b, escape_solidus);
        }
        i = i + 1;
    }
    proof {
        assert(s@.subrange(0, s@.len() as int) == s@);
    }
}


/// The byte at `k`; positions past the end read as `"`, the byte that
/// follows the contents of a string in JSON text.
pub open spec fn byte_at(s: Seq<u8>, k: int) -> u8 {
    if 0 <= k < s.len() {
        s[k]
    } else {
        0x22
    }
}

/// The value of one hex digit, computed as the decoder does (upper-casing
/// letters, then subtracting): exact for hex digits.
pub open spec fn hex_nibble(c: u8) -> u8 {
    let up: int = if c >= 0x41 {
        (if (c / 32) % 2 == 1 {
            c - 32
        } else {
            c as int
        }) - 7
    } else {
        c as int
    };
    if up >= 0x30 {
        (up - 0x30) as u8
    } else {
        (up + 256 - 0x30) as u8
    }
}

/// Four hex digits from `k` read as a number, four bits per digit.
pub open spec fn spec_hex4(s: Seq<u8>, k: int) -> u32 {
    let v1 = ((0u32 << 4u32) | (hex_nibble(byte_at(s, k)) as u32)) as u32;
    let v2 = ((v1 << 4u32) | (hex_nibble(byte_at(s, k + 1)) as u32)) as u32;
    let v3 = ((v2 << 4u32) | (hex_nibble(byte_at(s, k + 2)) as u32)) as u32;
    ((v3 << 4u32) | (hex_nibble(byte_at(s, k + 3)) as u32)) as u32
}

/// The UTF-8 bytes of a code point; `?` for values past 0x1FFFFF.
pub open spec fn spec_utf8(cp: u32) -> Seq<u8> {
    if cp < 0x80 {
        seq![cp as u8]
    } else if cp < 0x800 {
        seq![((cp >> 6u32) | 0xc0u32) as u8, ((cp & 0x3fu32) | 0x80u32) as u8]
    } else if cp < 0x10000 {
        seq![
            ((cp >> 12u32) | 0xe0u32) as u8,
            (((cp >> 6u32) & 0x3fu32) | 0x80u32) as u8,
            ((cp & 0x3fu32) | 0x80u32) as u8,
        ]
    } else if cp < 0x200000 {
        seq![
            ((cp >> 18u32) | 0xf0u32) as u8,
            (((cp >> 12u32) & 0x3fu32) | 0x80u32) as u8,
            (((cp >> 6u32) & 0x3fu32) | 0x80u32) as u8,
            ((cp & 0x3fu32) | 0x80u32) as u8,
        ]
    } else {
        seq![0x3fu8]
    }
}

/// The bytes a code point is written as are its shortest UTF-8 form: one
/// byte below 0x80, two below 0x800, three below 0x10000 and four below
/// 0x200000. The lead byte says how many continuation bytes follow, it is
/// never that of a longer form than needed, and the bytes together give the
/// code point back.
pub proof fn lemma_utf8_is_shortest(cp: u32)
    requires
        cp < 0x200000,
    ensures
        ({
            let b = spec_utf8(cp);
            &&& spec_valid_utf8(b)
            &&& cp < 0x80 ==> b.len() == 1 && b[0] == cp
            &&& 0x80 <= cp < 0x800 ==> b.len() == 2 && 0xc2 <= b[0] <= 0xdf && is_cont(b[1])
                && (b[0] - 0xc0) * 64 + (b[1] - 0x80) == cp
            &&& 0x800 <= cp < 0x10000 ==> b.len() == 3 && 0xe0 <= b[0] <= 0xef && (b[0] == 0xe0
                ==> b[1] >= 0xa0) && is_cont(b[1]) && is_cont(b[2]) && (b[0] - 0xe0) * 4096 + (
            b[1] - 0x80) * 64 + (b[2] - 0x80) == cp
            &&& 0x10000 <= cp ==> b.len() == 4 && 0xf0 <= b[0] <= 0xf7 && (b[0] == 0xf0 ==> b[1]
                >= 0x90) && is_cont(b[1]) && is_cont(b[2]) && is_cont(b[3]) && (b[0] - 0xf0)
                * 262144 + (b[1] - 0x80) * 4096 + (b[2] - 0x80) * 64 + (b[3] - 0x80) == cp
        }),
{
    let b = spec_utf8(cp);
    if cp < 0x80 {
        assert((cp as u8) as u32 == cp) by (bit_vector)
            requires
                cp < 0x80,
        ;
        assert(b.skip(1) =~= Seq::<u8>::empty());
        assert(spec_valid_utf8(b.skip(1)));
        assert(spec_valid_utf8(b));
    } else if cp < 0x800 {
        let b0 = ((cp >> 6u32) | 0xc0u32) as u8;
        let b1 = ((cp & 0x3fu32) | 0x80u32) as u8;
        assert(0xc2 <= b0 <= 0xdf && 0x80 <= b1 <= 0xbf && ((b0 - 0xc0) as u32) * 64 + ((b1
            - 0x80) as u32) == cp) by (bit_vector)
            requires
                0x80 <= cp < 0x800,
                b0 == ((cp >> 6u32) | 0xc0u32) as u8,
                b1 == ((cp & 0x3fu32) | 0x80u32) as u8,
        ;
        assert(b.skip(2) =~= Seq::<u8>::empty());
        assert(spec_valid_utf8(b.skip(2)));
        assert(spec_valid_utf8(b));
    } else if cp < 0x10000 {
        let b0 = ((cp >> 12u32) | 0xe0u32) as u8;
        let b1 = (((cp >> 6u32) & 0x3fu32) | 0x80u32) as u8;
        let b2 = ((cp & 0x3fu32) | 0x80u32) as u8;
        assert(0xe0 <= b0 <= 0xef && (b0 == 0xe0 ==> b1 >= 0xa0) && 0x80 <= b1 <= 0xbf && 0x80
            <= b2 <= 0xbf && ((b0 - 0xe0) as u32) * 4096 + ((b1 - 0x80) as u32) * 64 + ((b2
            - 0x80) as u32) == cp) by (bit_vector)
            requires
                0x800 <= cp < 0x10000,
                b0 == ((cp >> 12u32) | 0xe0u32) as u8,
                b1 == (((cp >> 6u32) & 0x3fu32) | 0x80u32) as u8,
                b2 == ((cp & 0x3fu32) | 0x80u32) as u8,
        ;
        assert(b.skip(3) =~= Seq::<u8>::empty());
        assert(spec_valid_utf8(b.skip(3)));
        assert(spec_valid_utf8(b));
    } else {
        let b0 = ((cp >> 18u32) | 0xf0u32) as u8;
        let b1 = (((cp >> 12u32) & 0x3fu32) | 0x80u32) as u8;
        let b2 = (((cp >> 6u32) & 0x3fu32) | 0x80u32) as u8;
        let b3 = ((cp & 0x3fu32) | 0x80u32) as u8;
        assert(0xf0 <= b0 <= 0xf7 && (b0 == 0xf0 ==> b1 >= 0x90) && 0x80 <= b1 <= 0xbf && 0x80
            <= b2 <= 0xbf && 0x80 <= b3 <= 0xbf && ((b0 - 0xf0) as u32) * 262144 + ((b1
            - 0x80) as u32) * 4096 + ((b2 - 0x80) as u32) * 64 + ((b3 - 0x80) as u32) == cp)
            by (bit_vector)
            requires
                0x10000 <= cp < 0x200000,
                b0 == ((cp >> 18u32) | 0xf0u32) as u8,
                b1 == (((cp >> 12u32) & 0x3fu32) | 0x80u32) as u8,
                b2 == (((cp >> 6u32) & 0x3fu32) | 0x80u32) as u8,
                b3 == ((cp & 0x3fu32) | 0x80u32) as u8,
        ;
        assert(b.skip(4) =~= Seq::<u8>::empty());
        assert(spec_valid_utf8(b.skip(4)));
        assert(spec_valid_utf8(b));
    }
}

/// The value of a hexadecimal digit, in either case.
pub open spec fn hex_digit_value(c: u8) -> int {
    if 0x30 <= c <= 0x39 {
        c - 0x30
    } else if 0x61 <= c <= 0x66 {
        c - 0x61 + 10
    } else {
        c - 0x41 + 10
    }
}

proof fn lemma_hex_nibble(c: u8)
    requires
        (0x30 <= c <= 0x39) || (0x61 <= c <= 0x66) || (0x41 <= c <= 0x46),
    ensures
        hex_nibble(c) as int == hex_digit_value(c),
        hex_nibble(c) < 16,
{
}

/// A `\u` escape of a code point outside the surrogates decodes to that
/// code point's UTF-8 bytes (its shortest form, by `lemma_utf8_is_shortest`),
/// the four hexadecimal digits read in either case.
pub proof fn lemma_unicode_escape_decodes(s: Seq<u8>)
    requires
        s.len() == 6,
        s[0] == 0x5c,
        s[1] == 0x75,
        four_hex_digits(s, 2),
    ensures
        ({
            let v = 4096 * hex_digit_value(s[2]) + 256 * hex_digit_value(s[3]) + 16
                * hex_digit_value(s[4]) + hex_digit_value(s[5]);
            !(0xd800 <= v < 0xe000) ==> spec_decode(s) == spec_utf8(v as u32)
        }),
{
    let h0 = hex_nibble(s[2]);
    let h1 = hex_nibble(s[3]);
    let h2 = hex_nibble(s[4]);
    let h3 = hex_nibble(s[5]);
    assert((0x30 <= s[2] <= 0x39) || (0x61 <= s[2] <= 0x66) || (0x41 <= s[2] <= 0x46));
    assert((0x30 <= s[3] <= 0x39) || (0x61 <= s[3] <= 0x66) || (0x41 <= s[3] <= 0x46));
    assert((0x30 <= s[4] <= 0x39) || (0x61 <= s[4] <= 0x66) || (0x41 <= s[4] <= 0x46));
    assert((0x30 <= s[5] <= 0x39) || (0x61 <= s[5] <= 0x66) || (0x41 <= s[5] <= 0x46));
    lemma_hex_nibble(s[2]);
    lemma_hex_nibble(s[3]);
    lemma_hex_nibble(s[4]);
    lemma_hex_nibble(s[5]);
    let cp = spec_hex4(s, 2);
    assert(cp == spec_hex4(s, 2));
    let v1 = ((0u32 << 4u32) | (h0 as u32)) as u32;
    let v2 = ((v1 << 4u32) | (h1 as u32)) as u32;
    let v3 = ((v2 << 4u32) | (h2 as u32)) as u32;
    let v4 = ((v3 << 4u32) | (h3 as u32)) as u32;
    assert(v4 == (h0 as u32) * 4096 + (h1 as u32) * 256 + (h2 as u32) * 16 + (h3 as u32)
        && (v4 & 0xfc00u32 == 0xd800u32 ==> 0xd800 <= v4 < 0xdc00)) by (bit_vector)
        requires
            h0 < 16,
            h1 < 16,
            h2 < 16,
            h3 < 16,
            v1 == ((0u32 << 4u32) | (h0 as u32)) as u32,
            v2 == ((v1 << 4u32) | (h1 as u32)) as u32,
            v3 == ((v2 << 4u32) | (h2 as u32)) as u32,
            v4 == ((v3 << 4u32) | (h3 as u32)) as u32,
    ;
    assert(cp == v4);
    assert(s.skip(6) =~= Seq::<u8>::empty());
}

/// Joins a high surrogate and the following low surrogate into one code point.
pub open spec fn spec_surrogate_pair(hi: u32, lo: u32) -> u32 {
    (((hi & 0x3fu32) << 10u32) | (((((hi >> 6u32) & 0xfu32) + 1) as u32) << 16u32) | (lo & 0x3ffu32)) as u32
}

/// Decodes the escape at the start of `s` (which holds a backslash): the
/// bytes it stands for and how many bytes it takes. Unknown escapes and a
/// high surrogate not followed by `\u` give `?`; the latter also takes the
/// byte after it.
pub open spec fn spec_unescape(s: Seq<u8>) -> (Seq<u8>, int) {
    let e = byte_at(s, 1);
    if e == 0x72 {
        (seq![0x0du8], 2)
    } else if e == 0x6e {
        (seq![0x0au8], 2)
    } else if e == 0x5c {
        (seq![0x5cu8], 2)
    } else if e == 0x2f {
        (seq![0x2fu8], 2)
    } else if e == 0x22 {
        (seq![0x22u8], 2)
    } else if e == 0x66 {
        (seq![0x0cu8], 2)
    } else if e == 0x62 {
        (seq![0x08u8], 2)
    } else if e == 0x74 {
        (seq![0x09u8], 2)
    } else if e == 0x75 {
        let cp = spec_hex4(s, 2);
        if (cp & 0xfc00u32) == 0xd800u32 {
            if byte_at(s, 6) == 0x5c && byte_at(s, 7) == 0x75 {
                (spec_utf8(spec_surrogate_pair(cp, spec_hex4(s, 8))), 12)
            } else {
                (seq![0x3fu8], 7)
            }
        } else {
            (spec_utf8(cp), 6)
        }
    } else {
        (seq![0x3fu8], 2)
    }
}

/// The bytes a string's escaped contents stand for.
pub open spec fn spec_decode(s: Seq<u8>) -> Seq<u8>
    decreases s.len(),
{
    if s.len() == 0 {
        Seq::empty()
    } else if s[0] != 0x5c {
        seq![s[0]] + spec_decode(s.drop_first())
    } else {
        let (piece, n) = spec_unescape(s);
        if n >= s.len() {
            piece
        } else {
            piece + spec_decode(s.skip(n))
        }
    }
}

fn byte_at_exec(s: &[u8], i: usize, d: usize) -> (b: u8)
    requires
        i <= s.len(),
    ensures
        b == byte_at(s@, i + d),
{
    if d < s.len() - i {
        s[i + d]
    } else {
        0x22
    }
}

fn hex_nibble_exec(c: u8) -> (n: u8)
    ensures
        n == hex_nibble(c),
{
    let up: u8 = if c >= 0x41 {
        (if (c / 32) % 2 == 1 {
            c - 32
        } else {
            c
        }) - 7
    } else {
        c
    };
    if up >= 0x30 {
        up - 0x30
    } else {
        ((up as u16) + 256 - 0x30) as u8
    }
}

/// Reads the four hex digits at `i + d` into a number.
fn hex_to_digit(s: &[u8], i: usize, d: usize) -> (v: u32)
    requires
        i <= s.len(),
        d <= 8,
    ensures
        v == spec_hex4(s@, i + d),
{
    let v1: u32 = (0u32 << 4u32) | (hex_nibble_exec(byte_at_exec(s, i, d)) as u32);
    let v2: u32 = (v1 << 4u32) | (hex_nibble_exec(byte_at_exec(s, i, d + 1)) as u32);
    let v3: u32 = (v2 << 4u32) | (hex_nibble_exec(byte_at_exec(s, i, d + 2)) as u32);
    (v3 << 4u32) | (hex_nibble_exec(byte_at_exec(s, i, d + 3)) as u32)
}

/// Appends the UTF-8 bytes of `codepoint` (or `?` past 0x1FFFFF).
fn utf32_to_utf8(out: &mut Vec<u8>, codepoint: u32)
    ensures
        final(out)@ == old(out)@ + spec_utf8(codepoint),
{
    let cp = codepoint;
    if cp < 0x80 {
        out.push(cp as u8);
    } else if cp < 0x800 {
        out.push(((cp >> 6u32) | 0xc0u32) as u8);
        out.push(((cp & 0x3fu32) | 0x80u32) as u8);
    } else if cp < 0x10000 {
        out.push(((cp >> 12u32) | 0xe0u32) as u8);
        out.push((((cp >> 6u32) & 0x3fu32) | 0x80u32) as u8);
        out.push(((cp & 0x3fu32) | 0x80u32) as u8);
    } else if cp < 0x200000 {
        out.push(((cp >> 18u32) | 0xf0u32) as u8);
        out.push((((cp >> 12u32) & 0x3fu32) | 0x80u32) as u8);
        out.push((((cp >> 6u32) & 0x3fu32) | 0x80u32) as u8);
        out.push(((cp & 0x3fu32) | 0x80u32) as u8);
    } else {
        out.push(0x3f);
    }
}

proof fn lemma_byte_at_skip(s: Seq<u8>, i: int, k: int)
    requires
        0 <= i <= s.len(),
        0 <= k,
    ensures
        byte_at(s.skip(i), k) == byte_at(s, i + k),
{
}

/// Appends to `buf` the bytes that the escaped contents `s` of a JSON string
/// stand for.
#[verifier::rlimit(40)]
#[verifier::spinoff_prover]
pub fn yajl_string_decode(buf: &mut Vec<u8>, s: &[u8])
    ensures
        final(buf)@ == old(buf)@ + spec_decode(s@),
{
    let mut i: usize = 0;
    proof {
        assert(s@.skip(0) == s@);
    }
    while i < s.len()
        invariant
            i <= s.len(),
            old(buf)@ + spec_decode(s@) == buf@ + spec_decode(s@.skip(i as int)),
        decreases s.len() - i,
    {
        let ghost rest = s@.skip(i as int);
        let ghost before = buf@;
        assert(rest[0] == s@[i as int]);
        if s[i] != 0x5c {
            buf.push(s[i]);
            proof {
                assert(rest.drop_first() == s@.skip(i + 1));
                assert(before + (seq![s@[i as int]] + spec_decode(rest.drop_first())) == buf@
                    + spec_decode(s@.skip(i + 1)));
            }
            i = i + 1;
        } else {
            proof {
                lemma_byte_at_skip(s@, i as int, 1);
                lemma_byte_at_skip(s@, i as int, 2);
                lemma_byte_at_skip(s@, i as int, 3);
                lemma_byte_at_skip(s@, i as int, 4);
                lemma_byte_at_skip(s@, i as int, 5);
                lemma_byte_at_skip(s@, i as int, 6);
                lemma_byte_at_skip(s@, i as int, 7);
                lemma_byte_at_skip(s@, i as int, 8);
                lemma_byte_at_skip(s@, i as int, 9);
                lemma_byte_at_skip(s@, i as int, 10);
                lemma_byte_at_skip(s@, i as int, 11);
                assert(spec_hex4(rest, 2) == spec_hex4(s@, i + 2));
                assert(spec_hex4(rest, 8) == spec_hex4(s@, i + 8));
            }
            let e = byte_at_exec(s, i, 1);
            let n: usize;
            if e == 0x72 {
                buf.push(0x0d);
                n = 2;
            } else if e == 0x6e {
                buf.push(0x0a);
                n = 2;
            } else if e == 0x5c {
                buf.push(0x5c);
                n = 2;
            } else if e == 0x2f {
                buf.push(0x2f);
                n = 2;
            } else if e == 0x22 {
                buf.push(0x22);
                n = 2;
            } else if e == 0x66 {
                buf.push(0x0c);
                n = 2;
            } else if e == 0x62 {
                buf.push(0x08);
                n = 2;
            } else if e == 0x74 {
                buf.push(0x09);
                n = 2;
            } else if e == 0x75 {
                let cp = hex_to_digit(s, i, 2);
                if (cp & 0xfc00u32) == 0xd800u32 {
                    if byte_at_exec(s, i, 6) == 0x5c && byte_at_exec(s, i, 7) == 0x75 {
                        let lo = hex_to_digit(s, i, 8);
                        assert((cp >> 6u32) & 0xfu32 <= 15u32) by (bit_vector);
                        let joined: u32 = ((cp & 0x3fu32) << 10u32) | (((((cp >> 6u32) & 0xfu32)
                            + 1) as u32) << 16u32) | (lo & 0x3ffu32);
                        utf32_to_utf8(buf, joined);
                        n = 12;
                    } else {
                        buf.push(0x3f);
                        n = 7;
                    }
                } else {
                    utf32_to_utf8(buf, cp);
                    n = 6;
                }
            } else {
                buf.push(0x3f);
                n = 2;
            }
            proof {
                let (piece, m) = spec_unescape(rest);
                assert(m == n);
                assert(buf@ == before + piece);
                if n >= rest.len() {
                    assert(s@.skip(s.len() as int) == Seq::<u8>::empty());
                } else {
                    assert(rest.skip(n as int) == s@.skip(i + n));
                }
            }
            if n >= s.len() - i {
                i = s.len();
            } else {
                i = i + n;
            }
        }
    }
    proof {
        assert(s@.skip(s.len() as int) == Seq::<u8>::empty());
    }
}


proof fn lemma_hex_nibble_digit(n: u8)
    requires
        n < 16,
    ensures
        hex_nibble(hex_digit(n)) == n,
{
}

proof fn lemma_hex4_small(hi: u32, lo: u32)
    requires
        hi < 16,
        lo < 16,
    ensures
        ((((((((0u32 << 4u32) | 0u32) as u32) << 4u32) | 0u32) as u32) << 4u32 | hi) as u32)
            << 4u32 | lo == hi * 16 + lo,
        (hi * 16 + lo) < 32 ==> ((hi * 16 + lo) as u32 & 0xfc00u32) != 0xd800u32,
{
    assert(((((((((0u32 << 4u32) | 0u32) as u32) << 4u32) | 0u32) as u32) << 4u32 | hi) as u32)
        << 4u32 | lo == hi * 16 + lo) by (bit_vector)
        requires
            hi < 16,
            lo < 16,
    ;
    assert((hi * 16 + lo) < 32 ==> ((hi * 16 + lo) as u32 & 0xfc00u32) != 0xd800u32)
        by (bit_vector)
        requires
            hi < 16,
            lo < 16,
    ;
}

proof fn lemma_decode_escape(b: u8, t: Seq<u8>, sol: bool)
    ensures
        spec_decode(spec_escape(b, sol) + t) == seq![b] + spec_decode(t),
{
    let e = spec_escape(b, sol);
    let x = e + t;
    if e.len() == 1 {
        assert(x[0] == b);
        assert(x.drop_first() == t);
    } else if e.len() == 2 {
        assert(x[0] == 0x5c);
        assert(byte_at(x, 1) == e[1]);
        if t.len() == 0 {
            assert(spec_decode(t) == Seq::<u8>::empty());
            assert(seq![b] + Seq::<u8>::empty() == seq![b]);
        } else {
            assert(x.skip(2) == t);
        }
    } else {
        assert(x[0] == 0x5c);
        assert(byte_at(x, 1) == 0x75);
        assert(byte_at(x, 2) == 0x30);
        assert(byte_at(x, 3) == 0x30);
        assert(byte_at(x, 4) == hex_digit(b / 16));
        assert(byte_at(x, 5) == hex_digit(b % 16));
        lemma_hex_nibble_digit(b / 16);
        lemma_hex_nibble_digit(b % 16);
        lemma_hex_nibble_digit(0);
        assert(hex_digit(0) == 0x30);
        lemma_hex4_small((b / 16) as u32, (b % 16) as u32);
        assert(spec_hex4(x, 2) == b as u32);
        if t.len() == 0 {
            assert(spec_decode(t) == Seq::<u8>::empty());
            assert(seq![b] + Seq::<u8>::empty() == seq![b]);
        } else {
            assert(x.skip(6) == t);
        }
    }
}

/// Decoding undoes encoding: for every byte string `s`, decoding the escaped
/// form of `s` gives `s` back, whether or not the solidus is escaped.
pub proof fn lemma_decode_encode(s: Seq<u8>, escape_solidus: bool)
    ensures
        spec_decode(spec_encode(s, escape_solidus)) == s,
    decreases s.len(),
{
    if s.len() == 0 {
        assert(spec_encode(s, escape_solidus) == Seq::<u8>::empty());
    } else {
        lemma_decode_encode(s.drop_first(), escape_solidus);
        lemma_decode_escape(s[0], spec_encode(s.drop_first(), escape_solidus), escape_solidus);
        assert(seq![s[0]] + s.drop_first() == s);
    }
}


/// Whether `s` is made of whole UTF-8 sequences: ASCII bytes, or a lead byte
/// of a two, three or four byte sequence followed by that many continuation
/// bytes.
pub open spec fn spec_valid_utf8(s: Seq<u8>) -> bool
    decreases s.len(),
{
    if s.len() == 0 {
        true
    } else {
        let n = utf8_need(s[0]);
        if n < 0 || s.len() < n + 1 {
            false
        } else {
            (forall|k: int| 1 <= k <= n ==> is_cont(#[trigger] s[k])) && spec_valid_utf8(
                s.skip(n + 1),
            )
        }
    }
}

/// Whether `s` is valid UTF-8 in the sense of `spec_valid_utf8`.
pub fn yajl_string_validate_utf8(s: &[u8]) -> (ok: bool)
    ensures
        ok == spec_valid_utf8(s@),
{
    let mut i: usize = 0;
    proof {
        assert(s@.skip(0) == s@);
    }
    while i < s.len()
        invariant
            i <= s.len(),
            spec_valid_utf8(s@) == spec_valid_utf8(s@.skip(i as int)),
        decreases s.len() - i,
    {
        let ghost rest = s@.skip(i as int);
        let c = s[i];
        assert(rest[0] == c);
        let n: usize = if c <= 0x7f {
            0
        } else if 0xc0 <= c && c <= 0xdf {
            1
        } else if 0xe0 <= c && c <= 0xef {
            2
        } else if 0xf0 <= c && c <= 0xf7 {
            3
        } else {
            return false;
        };
        if s.len() - i < n + 1 {
            return false;
        }
        let mut k: usize = 1;
        while k <= n
            invariant
                1 <= k <= n + 1,
                n <= 3,
                i + n < s.len(),
                rest == s@.skip(i as int),
                rest[0] == c,
                n == utf8_need(c),
                spec_valid_utf8(s@) == spec_valid_utf8(rest),
                forall|j: int| 1 <= j < k ==> is_cont(#[trigger] rest[j]),
            decreases n + 1 - k,
        {
            let b = s[i + k];
            assert(rest[k as int] == b);
            if !(0x80 <= b && b <= 0xbf) {
                proof {
                    assert(utf8_need(rest[0]) == n);
                    assert(!is_cont(rest[k as int]));
                }
                return false;
            }
            k = k + 1;
        }
        proof {
            assert(rest.skip(n + 1) == s@.skip(i + n + 1));
        }
        i = i + n + 1;
    }
    proof {
        assert(s@.skip(s.len() as int) == Seq::<u8>::empty());
    }
    true
}

} // verus!
