use vstd::prelude::*;

use crate::lexer::{
    lemma_cut_token_reaches_end, lemma_lex_bounds, lemma_lex_ignores_what_follows,
    lemma_lex_ignores_what_precedes, lemma_lex_resumes, shifted, spec_lex, spec_token_text,
    Token,
};
use crate::machine::{
    apply_op, complete_step, lm_after, lm_base, lm_next, lm_pos, lm_stream, lm_text, model_run,
    model_step, set_top, spec_decide, token_step, work, Caps, LexModel, Model, MoveView,
    StackOp,
};
use crate::parser::{is_bottom_state, is_error_state, is_nested_state, Callbacks, ParseState};
use crate::rparser::{is_outer, lemma_decide_fits, move_fits};
use crate::status::Status;

verus! {

/// A token that is neither the end of the input nor an error.
pub open spec fn is_real(t: Token) -> bool {
    t != Token::Eof && t != Token::Error
}

/// Where the next token of a chunk lies: it starts at or after the chunk
/// offset; a real token ends within the chunk, and at or after the offset
/// (strictly after it when nothing was held over).
pub proof fn lemma_lm_bounds(lex: LexModel, text: Seq<u8>, off: int)
    requires
        0 <= off <= text.len(),
    ensures
        ({
            let o = lm_next(lex, text, off);
            let st = lm_stream(lex, text, off);
            &&& o.tok == Token::Eof ==> lm_base(lex, off) <= o.start <= st.len()
            &&& is_real(o.tok) ==> lm_base(lex, off) <= o.start
            &&& is_real(o.tok) ==> o.start < o.end <= st.len() && off <= lm_pos(lex, text, off)
                <= text.len()
            &&& is_real(o.tok) && lex.held is None ==> off < lm_pos(lex, text, off)
            &&& (o.tok == Token::String || o.tok == Token::StringWithEscapes) ==> o.start + 2
                <= o.end
        }),
{
    let st = lm_stream(lex, text, off);
    lemma_lex_bounds(st, lm_base(lex, off), lex.comments, lex.validate);
}

/// Positions `k..` of `u` hold `y`: a stretch of `y` is the stretch of `u`
/// moved by `k`.
proof fn lemma_stretch(u: Seq<u8>, y: Seq<u8>, k: int, a: int, b: int)
    requires
        0 <= k,
        k + y.len() <= u.len(),
        forall|i: int| 0 <= i < y.len() ==> #[trigger] y[i] == u[k + i],
        0 <= a <= b <= y.len(),
    ensures
        u.subrange(k + a, k + b) == y.subrange(a, b),
{
    assert(u.subrange(k + a, k + b) =~= y.subrange(a, b));
}

/// A token that ends inside the first chunk is read the same way when the
/// second chunk follows.
#[verifier::rlimit(100)]
#[verifier::spinoff_prover]
pub proof fn lemma_lm_prefix_done(lex: LexModel, t1: Seq<u8>, t2: Seq<u8>, off: int)
    requires
        0 <= off <= t1.len(),
        lm_next(lex, t1, off).tok != Token::Eof,
    ensures
        lm_next(lex, t1 + t2, off) == lm_next(lex, t1, off),
        lm_pos(lex, t1 + t2, off) == lm_pos(lex, t1, off),
        lm_after(lex, t1 + t2, off) == lm_after(lex, t1, off),
        lm_text(lex, t1 + t2, off) == lm_text(lex, t1, off),
{
    let st = lm_stream(lex, t1, off);
    let b = lm_base(lex, off);
    let o = lm_next(lex, t1, off);
    assert(lm_stream(lex, t1 + t2, off) =~= st + t2);
    lemma_lm_bounds(lex, t1, off);
    lemma_lex_ignores_what_follows(st, t2, b, lex.comments, lex.validate);
    if is_real(o.tok) {
        assert(forall|i: int| 0 <= i < st.len() ==> #[trigger] st[i] == (st + t2)[0 + i]);
        lemma_stretch(st + t2, st, 0, o.start, o.end);
        if o.tok == Token::String || o.tok == Token::StringWithEscapes {
            lemma_stretch(st + t2, st, 0, o.start + 1, o.end - 1);
        }
    }
}

/// The joined-text view of a token cut off at the end of `st`: what the
/// joined text reads from `b` is what the held start of the token, followed
/// by `t2`, reads from its beginning, moved to where the token starts.
#[verifier::rlimit(100)]
#[verifier::spinoff_prover]
proof fn lemma_cut_pieces(st: Seq<u8>, t2: Seq<u8>, b: int, ac: bool, v: bool)
    requires
        0 <= b <= st.len(),
        spec_lex(st, b, ac, v).tok == Token::Eof,
    ensures
        ({
            let o = spec_lex(st, b, ac, v);
            let y = st.subrange(o.start, st.len() as int) + t2;
            let o2 = spec_lex(y, 0, ac, v);
            let oc = spec_lex(st + t2, b, ac, v);
            &&& b <= o.start <= st.len()
            &&& oc == shifted(o2, o.start)
            &&& o2.tok == Token::Eof ==> (st + t2).subrange(oc.start, (st + t2).len() as int)
                == y.subrange(o2.start, y.len() as int)
            &&& spec_token_text(st + t2, oc) == spec_token_text(y, o2)
            &&& is_real(o2.tok) ==> oc.end >= st.len()
        }),
{
    let o = spec_lex(st, b, ac, v);
    lemma_lex_bounds(st, b, ac, v);
    lemma_lex_resumes(st, t2, b, ac, v);
    let y = st.subrange(o.start, st.len() as int) + t2;
    let o2 = spec_lex(y, 0, ac, v);
    lemma_lex_bounds(y, 0, ac, v);
    let u = st + t2;
    assert(forall|i: int| 0 <= i < y.len() ==> #[trigger] y[i] == u[o.start + i]);
    if o2.tok == Token::Eof {
        lemma_stretch(u, y, o.start, o2.start, y.len() as int);
    }
    if is_real(o2.tok) {
        lemma_stretch(u, y, o.start, o2.start, o2.end);
        if o2.tok == Token::String || o2.tok == Token::StringWithEscapes {
            lemma_stretch(u, y, o.start, o2.start + 1, o2.end - 1);
        }
        lemma_cut_token_reaches_end(st, t2, b, ac, v);
    }
}

/// A token cut off by the end of the first chunk is read, in the joined
/// text, as the lexer holding its start reads it from the second chunk;
/// a real one ends as far into the joined text as it ends into the second
/// chunk, plus the first chunk's length.
#[verifier::rlimit(100)]
#[verifier::spinoff_prover]
pub proof fn lemma_lm_prefix_cut(lex: LexModel, t1: Seq<u8>, t2: Seq<u8>, off: int)
    requires
        0 <= off <= t1.len(),
        lm_next(lex, t1, off).tok == Token::Eof,
    ensures
        ({
            let o = lm_next(lex, t1, off);
            let oc = lm_next(lex, t1 + t2, off);
            let lex1 = lm_after(lex, t1, off);
            let o2 = lm_next(lex1, t2, 0);
            &&& oc.tok == o2.tok
            &&& oc.err == o2.err
            &&& oc.start == o.start + o2.start
            &&& lm_after(lex, t1 + t2, off) == lm_after(lex1, t2, 0)
            &&& lm_text(lex, t1 + t2, off) == lm_text(lex1, t2, 0)
            &&& is_real(o2.tok) ==> lm_pos(lex, t1 + t2, off) == t1.len() + lm_pos(lex1, t2, 0)
        }),
{
    let st = lm_stream(lex, t1, off);
    let b = lm_base(lex, off);
    assert(lm_stream(lex, t1 + t2, off) =~= st + t2);
    let o = spec_lex(st, b, lex.comments, lex.validate);
    let lex1 = lm_after(lex, t1, off);
    assert(lm_stream(lex1, t2, 0) =~= st.subrange(o.start, st.len() as int) + t2);
    lemma_cut_pieces(st, t2, b, lex.comments, lex.validate);
}

/// Text before the chunk does not matter: reading from `q` in `y` after
/// `x` reads what reading from `q` in `y` alone reads, and ends `x.len()`
/// further on.
#[verifier::rlimit(100)]
#[verifier::spinoff_prover]
pub proof fn lemma_lm_shift(lex: LexModel, x: Seq<u8>, y: Seq<u8>, q: int)
    requires
        0 <= q <= y.len(),
    ensures
        ({
            let o = lm_next(lex, x + y, x.len() + q);
            let o2 = lm_next(lex, y, q);
            &&& o.tok == o2.tok
            &&& o.err == o2.err
            &&& lm_after(lex, x + y, x.len() + q) == lm_after(lex, y, q)
            &&& lm_text(lex, x + y, x.len() + q) == lm_text(lex, y, q)
            &&& lm_pos(lex, x + y, x.len() + q) == x.len() + lm_pos(lex, y, q)
        }),
{
    let u = x + y;
    let k = x.len() as int;
    lemma_lm_bounds(lex, y, q);
    if lex.held is Some {
        assert(lm_stream(lex, u, k + q) =~= lm_stream(lex, y, q));
    } else {
        lemma_lex_ignores_what_precedes(x, y, q, lex.comments, lex.validate);
        let o2 = lm_next(lex, y, q);
        assert(forall|i: int| 0 <= i < y.len() ==> #[trigger] y[i] == u[k + i]);
        if o2.tok == Token::Eof {
            assert(u.subrange(k + o2.start, u.len() as int) =~= y.subrange(
                o2.start,
                y.len() as int,
            ));
        }
        if is_real(o2.tok) {
            assert(u.subrange(k + o2.start, k + o2.end) =~= y.subrange(o2.start, o2.end));
            if o2.tok == Token::String || o2.tok == Token::StringWithEscapes {
                assert(u.subrange(k + o2.start + 1, k + o2.end - 1) =~= y.subrange(
                    o2.start + 1,
                    o2.end - 1,
                ));
            }
        }
    }
}

/// A stack the parser can be in: never empty, an outer state at the
/// bottom, states of objects and arrays above it, and an error state only
/// on top.
pub open spec fn stack_shape(st: Seq<ParseState>) -> bool {
    &&& st.len() >= 1
    &&& is_bottom_state(st[0])
    &&& forall|i: int| 1 <= i < st.len() ==> is_nested_state(#[trigger] st[i])
    &&& forall|i: int| 0 <= i < st.len() - 1 ==> !is_error_state(#[trigger] st[i])
}

proof fn lemma_shape_top(st: Seq<ParseState>)
    requires
        stack_shape(st),
    ensures
        is_outer(st.last()) ==> st.len() == 1,
        !is_outer(st.last()) && !is_error_state(st.last()) ==> st.len() >= 2,
{
    if st.len() > 1 {
        assert(is_nested_state(st[st.len() - 1]));
    }
}

proof fn lemma_shape_set_top(st: Seq<ParseState>, a: ParseState)
    requires
        stack_shape(st),
        !is_error_state(st.last()),
        is_error_state(a) || (is_outer(st.last()) == is_outer(a) && !is_error_state(a)),
    ensures
        stack_shape(set_top(st, a)),
        set_top(st, a).last() == a,
{
    lemma_shape_top(st);
    let b = set_top(st, a);
    assert(b.len() == st.len());
    assert forall|i: int| 1 <= i < b.len() implies is_nested_state(#[trigger] b[i]) by {
        if i < st.len() - 1 {
            assert(b[i] == st[i]);
        } else {
            assert(b[i] == a);
            assert(is_nested_state(st[i]));
        }
    }
    assert forall|i: int| 0 <= i < b.len() - 1 implies !is_error_state(#[trigger] b[i]) by {
        assert(b[i] == st[i]);
    }
    if st.len() > 1 {
        assert(b[0] == st[0]);
    } else {
        assert(b[0] == a);
    }
}

proof fn lemma_shape_apply(st: Seq<ParseState>, op: StackOp)
    requires
        stack_shape(st),
        !is_error_state(st.last()),
        move_fits(st.last(), MoveView::Go(None, op)),
    ensures
        stack_shape(apply_op(st, op)),
{
    lemma_shape_top(st);
    let b = apply_op(st, op);
    assert forall|i: int| 1 <= i < b.len() implies is_nested_state(#[trigger] b[i]) by {
        if i < st.len() - 1 {
            assert(b[i] == st[i]);
        }
    }
    assert forall|i: int| 0 <= i < b.len() - 1 implies !is_error_state(#[trigger] b[i]) by {
        if i < st.len() - 1 {
            assert(b[i] == st[i]);
        }
    }
    if st.len() > 1 {
        assert(b[0] == st[0]);
    }
}

/// Each step that does not end a parse call makes progress, and keeps the
/// shape of the stack.
#[verifier::rlimit(100)]
#[verifier::spinoff_prover]
proof fn lemma_step_progress<C: Callbacks>(
    m: Model,
    cb: C::Model,
    text: Seq<u8>,
    off: int,
    flags: u32,
    caps: Caps,
)
    requires
        stack_shape(m.stack),
        !is_error_state(m.stack.last()),
        0 <= off <= text.len(),
    ensures
        ({
            let r = model_step::<C>(m, cb, text, off, flags, caps);
            r.3 is None ==> 0 <= r.2 <= text.len() && 0 <= work(r.0, text.len() as int, r.2)
                < work(m, text.len() as int, off) && stack_shape(r.0.stack)
        }),
{
    let top = m.stack.last();
    if top == ParseState::ParseComplete {
        lemma_shape_set_top(m.stack, ParseState::GotValue);
    } else {
        let o = lm_next(m.lex, text, off);
        lemma_lm_bounds(m.lex, text, off);
        if is_real(o.tok) {
            let t = lm_text(m.lex, text, off);
            let mv = spec_decide(top, o.tok, t, caps);
            lemma_decide_fits(top, o.tok, t, caps);
            match mv {
                MoveView::Go(_, op) => {
                    lemma_shape_apply(m.stack, op);
                },
                _ => {},
            }
        }
    }
}

/// Two parser models that agree in all but how far into their chunks they got.
pub open spec fn same_but_offset(a: Model, b: Model) -> bool {
    &&& a.stack == b.stack
    &&& a.error == b.error
    &&& a.lex == b.lex
    &&& a.events == b.events
}

/// What two lexers read next, from `text` at `off` and from `text2` at
/// `off2`, agrees: the same kind of token (and error), carrying the same
/// bytes, leaving the lexers alike; a real token ends `d` further on in
/// the first text.
pub open spec fn reads_alike(
    lex: LexModel,
    text: Seq<u8>,
    off: int,
    lex2: LexModel,
    text2: Seq<u8>,
    off2: int,
    d: int,
) -> bool {
    let o = lm_next(lex, text, off);
    let o2 = lm_next(lex2, text2, off2);
    &&& o.tok == o2.tok
    &&& o.err == o2.err
    &&& lm_after(lex, text, off) == lm_after(lex2, text2, off2)
    &&& lm_text(lex, text, off) == lm_text(lex2, text2, off2)
    &&& is_real(o.tok) ==> lm_pos(lex, text, off) == d + lm_pos(lex2, text2, off2)
}

/// A step that reads a token does the same on two parsers whose lexers
/// read alike.
proof fn lemma_token_step_match<C: Callbacks>(
    m: Model,
    m2: Model,
    cb: C::Model,
    text: Seq<u8>,
    off: int,
    text2: Seq<u8>,
    off2: int,
    caps: Caps,
    d: int,
)
    requires
        m.stack == m2.stack,
        m.error == m2.error,
        m.events == m2.events,
        reads_alike(m.lex, text, off, m2.lex, text2, off2, d),
    ensures
        ({
            let r = token_step::<C>(m, cb, text, off, caps);
            let r2 = token_step::<C>(m2, cb, text2, off2, caps);
            &&& same_but_offset(r.0, r2.0)
            &&& r.1 == r2.1
            &&& r.3 == r2.3
            &&& r.3 is None ==> r.2 == d + r2.2
        }),
{
}

/// A step from a completed value does the same on two parsers whose
/// lexers read alike, when both are at the end of their chunks or
/// neither is.
proof fn lemma_complete_step_match(
    m: Model,
    m2: Model,
    text: Seq<u8>,
    off: int,
    text2: Seq<u8>,
    off2: int,
    flags: u32,
    d: int,
)
    requires
        m.stack == m2.stack,
        m.error == m2.error,
        m.events == m2.events,
        (off == text.len()) == (off2 == text2.len()),
        flags & 8 != 0 || flags & 4 != 0 || off == text.len() ==> m.lex == m2.lex && off == d
            + off2,
        flags & 8 == 0 && flags & 4 == 0 && off != text.len() ==> reads_alike(
            m.lex,
            text,
            off,
            m2.lex,
            text2,
            off2,
            d,
        ),
    ensures
        ({
            let r = complete_step(m, text, off, flags);
            let r2 = complete_step(m2, text2, off2, flags);
            &&& same_but_offset(r.0, r2.0)
            &&& r.2 == r2.2
            &&& r.2 is None ==> r.1 == d + r2.1
        }),
{
}

/// Running over `y` after `x` does what running over `y` alone does.
#[verifier::rlimit(100)]
#[verifier::spinoff_prover]
proof fn lemma_run_shift<C: Callbacks>(
    m: Model,
    m2: Model,
    cb: C::Model,
    x: Seq<u8>,
    y: Seq<u8>,
    q: int,
    flags: u32,
    caps: Caps,
)
    requires
        same_but_offset(m, m2),
        stack_shape(m.stack),
        0 <= q <= y.len(),
    ensures
        ({
            let r = model_run::<C>(m, cb, x + y, x.len() + q, flags, caps);
            let r2 = model_run::<C>(m2, cb, y, q, flags, caps);
            same_but_offset(r.0, r2.0) && r.1 == r2.1 && r.2 == r2.2
        }),
    decreases work(m2, y.len() as int, q),
{
    let top = m.stack.last();
    if !is_error_state(top) {
        let k = x.len() as int;
        let xy = x + y;
        lemma_lm_shift(m.lex, x, y, q);
        if top == ParseState::ParseComplete {
            lemma_complete_step_match(m, m2, xy, k + q, y, q, flags, k);
        } else {
            lemma_token_step_match::<C>(m, m2, cb, xy, k + q, y, q, caps, k);
        }
        lemma_step_progress::<C>(m, cb, xy, k + q, flags, caps);
        lemma_step_progress::<C>(m2, cb, y, q, flags, caps);
        let r = model_step::<C>(m, cb, xy, k + q, flags, caps);
        let r2 = model_step::<C>(m2, cb, y, q, flags, caps);
        if r2.3 is None {
            lemma_run_shift::<C>(r.0, r2.0, r.1, x, y, r2.2, flags, caps);
        }
    }
}

/// What the chunk law says of a run from `m` at `off` in the first chunk.
pub open spec fn joins<C: Callbacks>(
    m: Model,
    cb: C::Model,
    t1: Seq<u8>,
    t2: Seq<u8>,
    off: int,
    flags: u32,
    caps: Caps,
) -> bool {
    let a = model_run::<C>(m, cb, t1, off, flags, caps);
    let c = model_run::<C>(m, cb, t1 + t2, off, flags, caps);
    let b = model_run::<C>(Model { consumed: 0, ..a.0 }, a.1, t2, 0, flags, caps);
    &&& a.2 == Status::Success ==> same_but_offset(b.0, c.0) && b.1 == c.1 && b.2 == c.2
    &&& a.2 != Status::Success ==> c == a
}

/// The chunk law for a run that starts from a completed value.
#[verifier::rlimit(100)]
#[verifier::spinoff_prover]
proof fn lemma_prefix_complete<C: Callbacks>(
    m: Model,
    cb: C::Model,
    t1: Seq<u8>,
    t2: Seq<u8>,
    off: int,
    flags: u32,
    caps: Caps,
)
    requires
        stack_shape(m.stack),
        m.stack.last() == ParseState::ParseComplete,
        flags & 8 == 0,
        0 <= off <= t1.len(),
    ensures
        joins::<C>(m, cb, t1, t2, off, flags, caps),
{
    let t12 = t1 + t2;
    let r = model_step::<C>(m, cb, t1, off, flags, caps);
    if flags & 4 != 0 {
    } else if off == t1.len() {
        let a0 = Model { consumed: 0, ..r.0 };
        lemma_run_shift::<C>(m, a0, cb, t1, t2, 0, flags, caps);
    } else {
        let o = lm_next(m.lex, t1, off);
        if o.tok != Token::Eof {
            lemma_lm_prefix_done(m.lex, t1, t2, off);
        } else {
            lemma_lm_prefix_cut(m.lex, t1, t2, off);
            let a0 = Model { consumed: 0, ..r.0 };
            if t2.len() == 0 {
                assert(t12 =~= t1);
            } else {
                lemma_complete_step_match(m, a0, t12, off, t2, 0, flags, t1.len() as int);
            }
        }
    }
}

/// The chunk law for a run whose next token is cut off by the end of the
/// first chunk.
#[verifier::rlimit(100)]
#[verifier::spinoff_prover]
proof fn lemma_prefix_cut<C: Callbacks>(
    m: Model,
    cb: C::Model,
    t1: Seq<u8>,
    t2: Seq<u8>,
    off: int,
    flags: u32,
    caps: Caps,
)
    requires
        stack_shape(m.stack),
        !is_error_state(m.stack.last()),
        m.stack.last() != ParseState::ParseComplete,
        0 <= off <= t1.len(),
        lm_next(m.lex, t1, off).tok == Token::Eof,
    ensures
        joins::<C>(m, cb, t1, t2, off, flags, caps),
{
    let t12 = t1 + t2;
    let r = model_step::<C>(m, cb, t1, off, flags, caps);
    let rc = model_step::<C>(m, cb, t12, off, flags, caps);
    lemma_lm_prefix_cut(m.lex, t1, t2, off);
    let a0 = Model { consumed: 0, ..r.0 };
    let k = t1.len() as int;
    lemma_token_step_match::<C>(m, a0, cb, t12, off, t2, 0, caps, k);
    lemma_step_progress::<C>(m, cb, t12, off, flags, caps);
    lemma_step_progress::<C>(a0, cb, t2, 0, flags, caps);
    let rb = model_step::<C>(a0, cb, t2, 0, flags, caps);
    if rb.3 is None {
        lemma_run_shift::<C>(rc.0, rb.0, rc.1, t1, t2, rb.2, flags, caps);
    }
}

/// Running over the first chunk from `off`, then over the second, does
/// what running over both together does; a run that stops on an error in
/// the first chunk is the run over both.
#[verifier::rlimit(100)]
#[verifier::spinoff_prover]
proof fn lemma_run_prefix<C: Callbacks>(
    m: Model,
    cb: C::Model,
    t1: Seq<u8>,
    t2: Seq<u8>,
    off: int,
    flags: u32,
    caps: Caps,
)
    requires
        stack_shape(m.stack),
        0 <= off <= t1.len(),
    ensures
        joins::<C>(m, cb, t1, t2, off, flags, caps),
    decreases work(m, t1.len() as int, off),
{
    let top = m.stack.last();
    if !is_error_state(top) {
        let t12 = t1 + t2;
        if top == ParseState::ParseComplete {
            if flags & 8 != 0 {
                lemma_step_progress::<C>(m, cb, t1, off, flags, caps);
                lemma_step_progress::<C>(m, cb, t12, off, flags, caps);
                let r = model_step::<C>(m, cb, t1, off, flags, caps);
                lemma_run_prefix::<C>(r.0, r.1, t1, t2, off, flags, caps);
            } else {
                lemma_prefix_complete::<C>(m, cb, t1, t2, off, flags, caps);
            }
        } else if lm_next(m.lex, t1, off).tok == Token::Eof {
            lemma_prefix_cut::<C>(m, cb, t1, t2, off, flags, caps);
        } else {
            lemma_lm_prefix_done(m.lex, t1, t2, off);
            lemma_step_progress::<C>(m, cb, t1, off, flags, caps);
            lemma_step_progress::<C>(m, cb, t12, off, flags, caps);
            let r = model_step::<C>(m, cb, t1, off, flags, caps);
            assert(model_step::<C>(m, cb, t12, off, flags, caps) == r);
            if r.3 is None {
                lemma_run_prefix::<C>(r.0, r.1, t1, t2, r.2, flags, caps);
            }
        }
    }
}

/// Parsing a text in two chunks ends where parsing it whole does. When the
/// first chunk is taken without an error, parsing the second chunk after it
/// leaves the parser with the same states, parse error, lexer, events,
/// callbacks and status as parsing both chunks joined; only how far into
/// the last chunk the parser got differs. When the first chunk ends in an
/// error, parsing the joined text ends in that same error, at the same place.
pub proof fn lemma_parse_in_chunks<C: Callbacks>(
    m: Model,
    cb: C::Model,
    t1: Seq<u8>,
    t2: Seq<u8>,
    flags: u32,
    caps: Caps,
)
    requires
        stack_shape(m.stack),
    ensures
        ({
            let a = model_run::<C>(m, cb, t1, 0, flags, caps);
            let b = model_run::<C>(Model { consumed: 0, ..a.0 }, a.1, t2, 0, flags, caps);
            let c = model_run::<C>(m, cb, t1 + t2, 0, flags, caps);
            &&& a.2 == Status::Success ==> same_but_offset(b.0, c.0) && b.1 == c.1 && b.2 == c.2
            &&& a.2 != Status::Success ==> c == a
        }),
{
    lemma_run_prefix::<C>(m, cb, t1, t2, 0, flags, caps);
}

} // verus!
