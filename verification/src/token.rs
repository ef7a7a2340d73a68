use vstd::prelude::*;

verus! {

/// The kinds of token of the small JSON tokenizer.
#[derive(Debug, Clone, Copy, PartialEq, Eq, Structural)]
pub enum TokenKind {
    /// A string in double quotes, without escapes.
    String,
    /// `{`
    LeftCurly,
    /// `}`
    RightCurly,
    /// `:`
    Colon,
}

/// A token: its text in the input, its kind, and where it stands.
#[derive(Debug)]
pub struct Token<'text> {
    pub text: &'text str,
    pub kind: TokenKind,
    pub span: std::ops::Range<usize>,
}

impl<'text> Token<'text> {
    /// A token of kind `kind` whose text `text` stands at `span`.
    pub fn new(text: &'text str, kind: TokenKind, span: std::ops::Range<usize>) -> (t: Self)
        ensures
            t.text == text,
            t.kind == kind,
            t.span == span,
    {
        Token { text, kind, span }
    }
}

/// The first position at or after `p` that holds a quote or a backslash
/// (or the end): where a string's run of plain bytes stops.
pub open spec fn string_stop(s: Seq<u8>, p: int) -> int
    decreases s.len() - p,
{
    if p < 0 || p >= s.len() {
        s.len() as int
    } else if s[p] == 0x22 || s[p] == 0x5c {
        p
    } else {
        string_stop(s, p + 1)
    }
}

/// The first position at or after `p` where a character starts (or the
/// end): one that does not hold a UTF-8 continuation byte.
pub open spec fn next_boundary(s: Seq<u8>, p: int) -> int
    decreases s.len() - p,
{
    if p < 0 || p >= s.len() {
        s.len() as int
    } else if 0x80 <= s[p] <= 0xbf {
        next_boundary(s, p + 1)
    } else {
        p
    }
}

/// Where the scans stop: at or after where they start, and within the text.
pub proof fn lemma_stops_bounds(s: Seq<u8>, p: int)
    requires
        0 <= p <= s.len(),
    ensures
        p <= string_stop(s, p) <= s.len(),
        p <= next_boundary(s, p) <= s.len(),
    decreases s.len() - p,
{
    if p < s.len() {
        lemma_stops_bounds(s, p + 1);
    }
}

/// The tokens of the UTF-8 text `s` from `p`, each with where it starts
/// and ends. `{`, `}` and `:` are tokens of one byte. A string is a quote,
/// bytes other than quote and backslash, and a closing quote. A quote that
/// no such string follows is passed over up to the backslash or the end
/// where the string stopped; any other character is passed over whole.
pub open spec fn spec_tokens_from(s: Seq<u8>, p: int) -> Seq<(TokenKind, usize, usize)>
    decreases s.len() - p,
{
    if p < 0 || p >= s.len() {
        Seq::empty()
    } else {
        let c = s[p];
        proof {
            lemma_stops_bounds(s, p + 1);
        }
        if c == 0x7b {
            seq![(TokenKind::LeftCurly, p as usize, (p + 1) as usize)] + spec_tokens_from(s, p + 1)
        } else if c == 0x7d {
            seq![(TokenKind::RightCurly, p as usize, (p + 1) as usize)] + spec_tokens_from(s, p + 1)
        } else if c == 0x3a {
            seq![(TokenKind::Colon, p as usize, (p + 1) as usize)] + spec_tokens_from(s, p + 1)
        } else if c == 0x22 {
            let q = string_stop(s, p + 1);
            if q < s.len() && s[q] == 0x22 {
                seq![(TokenKind::String, p as usize, (q + 1) as usize)] + spec_tokens_from(
                    s,
                    q + 1,
                )
            } else {
                spec_tokens_from(s, q)
            }
        } else {
            spec_tokens_from(s, next_boundary(s, p + 1))
        }
    }
}

/// The tokens of the UTF-8 text `s`.
pub open spec fn spec_tokens(s: Seq<u8>) -> Seq<(TokenKind, usize, usize)> {
    spec_tokens_from(s, 0)
}

fn string_stop_at(s: &[u8], p: usize) -> (q: usize)
    requires
        p <= s.len(),
    ensures
        q == string_stop(s@, p as int),
{
    let mut q = p;
    while q < s.len() && s[q] != 0x22 && s[q] != 0x5c
        invariant
            p <= q <= s.len(),
            string_stop(s@, q as int) == string_stop(s@, p as int),
        decreases s.len() - q,
    {
        q = q + 1;
    }
    q
}

fn boundary_at(s: &[u8], p: usize) -> (q: usize)
    requires
        p <= s.len(),
    ensures
        q == next_boundary(s@, p as int),
{
    let mut q = p;
    while q < s.len() && 0x80 <= s[q] && s[q] <= 0xbf
        invariant
            p <= q <= s.len(),
            next_boundary(s@, q as int) == next_boundary(s@, p as int),
        decreases s.len() - q,
    {
        q = q + 1;
    }
    q
}

/// Splits the UTF-8 text `input` into tokens: each with its kind and where
/// it starts and ends; what is no token is passed over.
pub fn tokenize_spans(input: &[u8]) -> (r: Vec<(TokenKind, usize, usize)>)
    ensures
        r@ == spec_tokens(input@),
{
    let mut r: Vec<(TokenKind, usize, usize)> = Vec::new();
    let mut p: usize = 0;
    while p < input.len()
        invariant
            p <= input.len(),
            r@ + spec_tokens_from(input@, p as int) == spec_tokens(input@),
        decreases input.len() - p,
    {
        let ghost before = r@;
        let ghost rest = spec_tokens_from(input@, p as int);
        proof {
            lemma_stops_bounds(input@, p + 1);
        }
        let c = input[p];
        let mut next: usize = p + 1;
        if c == 0x7b || c == 0x7d || c == 0x3a {
            let kind = if c == 0x7b {
                TokenKind::LeftCurly
            } else if c == 0x7d {
                TokenKind::RightCurly
            } else {
                TokenKind::Colon
            };
            r.push((kind, p, p + 1));
            proof {
                assert(rest == seq![(kind, p, (p + 1) as usize)] + spec_tokens_from(
                    input@,
                    p + 1,
                ));
                assert(r@ + spec_tokens_from(input@, next as int) =~= before + rest);
            }
        } else if c == 0x22 {
            let q = string_stop_at(input, p + 1);
            if q < input.len() && input[q] == 0x22 {
                r.push((TokenKind::String, p, q + 1));
                next = q + 1;
                proof {
                    assert(r@ + spec_tokens_from(input@, next as int) =~= before + rest);
                }
            } else {
                next = q;
            }
        } else {
            next = boundary_at(input, p + 1);
        }
        p = next;
    }
    proof {
        assert(r@ + Seq::<(TokenKind, usize, usize)>::empty() =~= r@);
    }
    r
}

/// A quote, then bytes that are neither quote nor backslash, then a quote,
/// is one string token spanning all of them, and the tokens after it are
/// read from just past its closing quote.
pub proof fn lemma_quoted_run_is_one_string(s: Seq<u8>, p: int, q: int)
    requires
        0 <= p < q < s.len(),
        s[p] == 0x22,
        s[q] == 0x22,
        forall|i: int| p < i < q ==> s[i] != 0x22 && s[i] != 0x5c,
    ensures
        spec_tokens_from(s, p) == seq![(TokenKind::String, p as usize, (q + 1) as usize)]
            + spec_tokens_from(s, q + 1),
{
    lemma_run_stops_at(s, p + 1, q);
}

proof fn lemma_run_stops_at(s: Seq<u8>, i: int, q: int)
    requires
        0 <= i <= q < s.len(),
        s[q] == 0x22,
        forall|k: int| i <= k < q ==> s[k] != 0x22 && s[k] != 0x5c,
    ensures
        string_stop(s, i) == q,
    decreases q - i,
{
    if i < q {
        lemma_run_stops_at(s, i + 1, q);
    }
}

/// `{`, `}` and `:` are each a token of their one byte, and the tokens after
/// it are read from the next byte.
pub proof fn lemma_punctuation_is_one_token(s: Seq<u8>, p: int)
    requires
        0 <= p < s.len(),
    ensures
        s[p] == 0x7b ==> spec_tokens_from(s, p) == seq![(TokenKind::LeftCurly, p as usize, (p + 1) as usize)]
            + spec_tokens_from(s, p + 1),
        s[p] == 0x7d ==> spec_tokens_from(s, p) == seq![(TokenKind::RightCurly, p as usize, (p + 1) as usize)]
            + spec_tokens_from(s, p + 1),
        s[p] == 0x3a ==> spec_tokens_from(s, p) == seq![(TokenKind::Colon, p as usize, (p + 1) as usize)]
            + spec_tokens_from(s, p + 1),
{
}

/// Every token found is where the text says it is: a string token runs
/// from a quote to a quote with neither quote nor backslash between, and
/// each other token is its own byte.
pub proof fn lemma_tokens_are_in_the_text(s: Seq<u8>, p: int, j: int)
    requires
        0 <= p,
        s.len() <= usize::MAX,
        0 <= j < spec_tokens_from(s, p).len(),
    ensures
        ({
            let (k, a, b) = spec_tokens_from(s, p)[j];
            &&& p <= a < b <= s.len()
            &&& k == TokenKind::String ==> s[a as int] == 0x22 && s[b - 1] == 0x22 && a + 2 <= b
                && forall|i: int| a < i < b - 1 ==> s[i] != 0x22 && s[i] != 0x5c
            &&& k == TokenKind::LeftCurly ==> b == a + 1 && s[a as int] == 0x7b
            &&& k == TokenKind::RightCurly ==> b == a + 1 && s[a as int] == 0x7d
            &&& k == TokenKind::Colon ==> b == a + 1 && s[a as int] == 0x3a
        }),
    decreases s.len() - p,
{
    if p < s.len() {
        lemma_stops_bounds(s, p + 1);
        let c = s[p];
        if c == 0x7b || c == 0x7d || c == 0x3a {
            let rest = spec_tokens_from(s, p + 1);
            let kind = if c == 0x7b {
                TokenKind::LeftCurly
            } else if c == 0x7d {
                TokenKind::RightCurly
            } else {
                TokenKind::Colon
            };
            let head = seq![(kind, p as usize, (p + 1) as usize)];
            assert(spec_tokens_from(s, p) == head + rest);
            if j > 0 {
                assert((head + rest)[j] == rest[j - 1]);
                lemma_tokens_are_in_the_text(s, p + 1, j - 1);
            } else {
                assert((head + rest)[0] == head[0]);
            }
        } else if c == 0x22 {
            let q = string_stop(s, p + 1);
            lemma_stop_skips(s, p + 1);
            if q < s.len() && s[q] == 0x22 {
                let rest = spec_tokens_from(s, q + 1);
                let head = seq![(TokenKind::String, p as usize, (q + 1) as usize)];
                assert(spec_tokens_from(s, p) == head + rest);
                if j > 0 {
                    assert((head + rest)[j] == rest[j - 1]);
                    lemma_tokens_are_in_the_text(s, q + 1, j - 1);
                } else {
                    assert((head + rest)[0] == head[0]);
                }
            } else {
                lemma_tokens_are_in_the_text(s, q, j);
            }
        } else {
            lemma_tokens_are_in_the_text(s, next_boundary(s, p + 1), j);
        }
    }
}

proof fn lemma_stop_skips(s: Seq<u8>, i: int)
    requires
        0 <= i <= s.len(),
    ensures
        forall|k: int| i <= k < string_stop(s, i) ==> s[k] != 0x22 && s[k] != 0x5c,
    decreases s.len() - i,
{
    if i < s.len() && s[i] != 0x22 && s[i] != 0x5c {
        lemma_stop_skips(s, i + 1);
    }
}

proof fn lemma_boundary_at(s: Seq<u8>, i: int, q: int)
    requires
        0 <= i <= q <= s.len(),
        forall|k: int| i <= k < q ==> 0x80 <= #[trigger] s[k] <= 0xbf,
        q == s.len() || !(0x80 <= s[q] <= 0xbf),
    ensures
        next_boundary(s, i) == q,
    decreases q - i,
{
    if i < q {
        lemma_boundary_at(s, i + 1, q);
    }
}

/// What is no token is passed over: a character other than a quote, a
/// brace or a colon is skipped whole (its lead byte and the continuation
/// bytes after it); a quote whose string meets a backslash is skipped up to
/// that backslash; and a quote that no quote or backslash follows ends the
/// tokens.
pub proof fn lemma_no_token_is_passed_over(s: Seq<u8>, p: int, q: int)
    requires
        0 <= p < q <= s.len(),
    ensures
        s[p] != 0x22 && s[p] != 0x7b && s[p] != 0x7d && s[p] != 0x3a && (forall|k: int|
            p < k < q ==> 0x80 <= #[trigger] s[k] <= 0xbf) && (q == s.len() || !(0x80 <= s[q]
            <= 0xbf)) ==> spec_tokens_from(s, p) == spec_tokens_from(s, q),
        s[p] == 0x22 && q < s.len() && s[q] == 0x5c && (forall|k: int|
            p < k < q ==> #[trigger] s[k] != 0x22 && s[k] != 0x5c) ==> spec_tokens_from(s, p)
            == spec_tokens_from(s, q),
        s[p] == 0x22 && q == s.len() && (forall|k: int|
            p < k < q ==> #[trigger] s[k] != 0x22 && s[k] != 0x5c) ==> spec_tokens_from(s, p)
            == Seq::<(TokenKind, usize, usize)>::empty(),
{
    if s[p] != 0x22 && s[p] != 0x7b && s[p] != 0x7d && s[p] != 0x3a && (forall|k: int|
        p < k < q ==> 0x80 <= #[trigger] s[k] <= 0xbf) && (q == s.len() || !(0x80 <= s[q]
        <= 0xbf)) {
        lemma_boundary_at(s, p + 1, q);
    }
    if s[p] == 0x22 && (forall|k: int| p < k < q ==> #[trigger] s[k] != 0x22 && s[k] != 0x5c) {
        if q < s.len() && s[q] == 0x5c {
            lemma_stop_before(s, p + 1, q);
        } else if q == s.len() {
            lemma_stop_before(s, p + 1, q);
            assert(spec_tokens_from(s, q) == Seq::<(TokenKind, usize, usize)>::empty());
        }
    }
}

proof fn lemma_stop_before(s: Seq<u8>, i: int, q: int)
    requires
        0 <= i <= q <= s.len(),
        forall|k: int| i <= k < q ==> #[trigger] s[k] != 0x22 && s[k] != 0x5c,
        q == s.len() || s[q] == 0x5c,
    ensures
        string_stop(s, i) == q,
    decreases q - i,
{
    if i < q {
        lemma_stop_before(s, i + 1, q);
    }
}

} // verus!
