use vstd::prelude::*;

use crate::bytes::to_vec;
use crate::encode::{spec_decode, yajl_string_decode};
use crate::ext::{spec_strtod_len, strtod_len};
use crate::lexer::{lemma_keyword_text, spec_lex, spec_token_text, LexError, LexOut, RLexer, Token};
use crate::parser::{
    parse_integer, spec_parse_integer, spec_after_value, CallbackStatus, Callbacks, ParseError,
    ParseState,
};
use crate::status::Status;

verus! {

/// What the parser hands to its callbacks.
pub enum Event {
    Null,
    Boolean(bool),
    Integer(i64),
    Double(Vec<u8>),
    Number(Vec<u8>),
    String(Vec<u8>),
    StartMap,
    MapKey(Vec<u8>),
    EndMap,
    StartArray,
    EndArray,
}

/// An event with its bytes as a sequence.
pub enum EventView {
    Null,
    Boolean(bool),
    Integer(i64),
    Double(Seq<u8>),
    Number(Seq<u8>),
    String(Seq<u8>),
    StartMap,
    MapKey(Seq<u8>),
    EndMap,
    StartArray,
    EndArray,
}

impl View for Event {
    type V = EventView;

    open spec fn view(&self) -> EventView {
        match self {
            Event::Null => EventView::Null,
            Event::Boolean(b) => EventView::Boolean(*b),
            Event::Integer(i) => EventView::Integer(*i),
            Event::Double(t) => EventView::Double(t@),
            Event::Number(t) => EventView::Number(t@),
            Event::String(t) => EventView::String(t@),
            Event::StartMap => EventView::StartMap,
            Event::MapKey(t) => EventView::MapKey(t@),
            Event::EndMap => EventView::EndMap,
            Event::StartArray => EventView::StartArray,
            Event::EndArray => EventView::EndArray,
        }
    }
}

/// How one token changes the state stack.
#[derive(Clone, Copy, PartialEq, Eq, Structural)]
pub enum StackOp {
    /// Replace the top state.
    SetTop(ParseState),
    /// Drop the top state.
    Pop,
    /// Replace the top state, then push another.
    SetTopPush(ParseState, ParseState),
}

/// What the parser does with one token: stop with a parse error (moving
/// the reported offset back over the token when the flag says so), or
/// hand an event to the callbacks (if any) and change the stack.
pub enum MoveView {
    Fail(ParseError, bool),
    Go(Option<EventView>, StackOp),
}

/// A move, carrying the event's bytes.
pub enum Move {
    Fail(ParseError, bool),
    Go(Option<Event>, StackOp),
}

impl View for Move {
    type V = MoveView;

    open spec fn view(&self) -> MoveView {
        match self {
            Move::Fail(e, b) => MoveView::Fail(*e, *b),
            Move::Go(Some(ev), op) => MoveView::Go(Some(ev@), *op),
            Move::Go(None, op) => MoveView::Go(None, *op),
        }
    }
}

/// Which number callbacks the parser's client takes.
#[derive(Debug, Clone, Copy, PartialEq, Eq, Structural)]
pub struct Caps {
    /// Numbers are handed over as text.
    pub number: bool,
    /// Integers are handed over as values.
    pub integer: bool,
    /// Numbers with a fraction or exponent are handed over as doubles.
    pub double: bool,
}

/// The move for a token read where a value is expected.
pub open spec fn spec_value_move(top: ParseState, tok: Token, t: Seq<u8>, caps: Caps) -> MoveView {
    let next = StackOp::SetTop(spec_after_value(top));
    if tok == Token::String {
        MoveView::Go(Some(EventView::String(t)), next)
    } else if tok == Token::StringWithEscapes {
        MoveView::Go(Some(EventView::String(spec_decode(t))), next)
    } else if tok == Token::Bool {
        MoveView::Go(Some(EventView::Boolean(t.len() > 0 && t[0] == 0x74)), next)
    } else if tok == Token::Null {
        MoveView::Go(Some(EventView::Null), next)
    } else if tok == Token::LeftBracket {
        MoveView::Go(
            Some(EventView::StartMap),
            StackOp::SetTopPush(spec_after_value(top), ParseState::MapStart),
        )
    } else if tok == Token::LeftBrace {
        MoveView::Go(
            Some(EventView::StartArray),
            StackOp::SetTopPush(spec_after_value(top), ParseState::ArrayStart),
        )
    } else if tok == Token::Integer {
        if caps.number {
            MoveView::Go(Some(EventView::Number(t)), next)
        } else if caps.integer {
            match spec_parse_integer(t) {
                Ok(i) => MoveView::Go(Some(EventView::Integer(i)), next),
                Err(_) => MoveView::Fail(ParseError::IntegerOverflow, true),
            }
        } else {
            MoveView::Go(None, next)
        }
    } else if tok == Token::Double {
        if caps.number {
            MoveView::Go(Some(EventView::Number(t)), next)
        } else if caps.double {
            spec_double_move(top, t, spec_strtod_len(t))
        } else {
            MoveView::Go(None, next)
        }
    } else if tok == Token::RightBrace {
        if top == ParseState::ArrayStart {
            MoveView::Go(Some(EventView::EndArray), StackOp::Pop)
        } else {
            MoveView::Fail(ParseError::UnallowedToken, false)
        }
    } else if tok == Token::Colon || tok == Token::Comma || tok == Token::RightBracket {
        MoveView::Fail(ParseError::UnallowedToken, false)
    } else {
        MoveView::Fail(ParseError::InvalidToken, false)
    }
}

/// The move for a number with a fraction or exponent, of text `t`, handed
/// over as a double, given how much of `t` reads as a double (`None`: no
/// double could be read).
pub open spec fn spec_double_move(top: ParseState, t: Seq<u8>, read: Option<usize>) -> MoveView {
    if read is None {
        MoveView::Fail(ParseError::FloatingPointOverflow, true)
    } else {
        MoveView::Go(Some(EventView::Double(t)), StackOp::SetTop(spec_after_value(top)))
    }
}

/// The move for a number with a fraction or exponent, of text `t`, handed
/// over as a double, given how much of `t` reads as a double.
pub fn double_move(top: ParseState, t: &[u8], read: Option<usize>) -> (m: Move)
    ensures
        m@ == spec_double_move(top, t@, read),
{
    match read {
        None => Move::Fail(ParseError::FloatingPointOverflow, true),
        Some(_) => Move::Go(Some(Event::Double(to_vec(t))), StackOp::SetTop(after_value(top))),
    }
}

/// The move for a token read where an object key is expected.
pub open spec fn spec_key_move(top: ParseState, tok: Token, t: Seq<u8>) -> MoveView {
    if tok == Token::String {
        MoveView::Go(Some(EventView::MapKey(t)), StackOp::SetTop(ParseState::MapSep))
    } else if tok == Token::StringWithEscapes {
        MoveView::Go(Some(EventView::MapKey(spec_decode(t))), StackOp::SetTop(ParseState::MapSep))
    } else if tok == Token::RightBracket && top == ParseState::MapStart {
        MoveView::Go(Some(EventView::EndMap), StackOp::Pop)
    } else {
        MoveView::Fail(ParseError::InvalidObjectKey, false)
    }
}

/// The move for a token read after a key or after an element.
pub open spec fn spec_sep_move(top: ParseState, tok: Token) -> MoveView {
    if top == ParseState::MapSep {
        if tok == Token::Colon {
            MoveView::Go(None, StackOp::SetTop(ParseState::MapNeedVal))
        } else {
            MoveView::Fail(ParseError::InvalidKeyValueSeparator, false)
        }
    } else if top == ParseState::MapGotVal {
        if tok == Token::RightBracket {
            MoveView::Go(Some(EventView::EndMap), StackOp::Pop)
        } else if tok == Token::Comma {
            MoveView::Go(None, StackOp::SetTop(ParseState::MapNeedKey))
        } else {
            MoveView::Fail(ParseError::InvalidObjectSeparator, true)
        }
    } else {
        if tok == Token::RightBrace {
            MoveView::Go(Some(EventView::EndArray), StackOp::Pop)
        } else if tok == Token::Comma {
            MoveView::Go(None, StackOp::SetTop(ParseState::ArrayNeedVal))
        } else {
            MoveView::Fail(ParseError::InvalidArraySeparator, false)
        }
    }
}

/// States that wait for a value.
pub open spec fn wants_value(s: ParseState) -> bool {
    s == ParseState::Start || s == ParseState::GotValue || s == ParseState::MapNeedVal || s
        == ParseState::ArrayNeedVal || s == ParseState::ArrayStart
}

/// States that wait for an object key.
pub open spec fn wants_key(s: ParseState) -> bool {
    s == ParseState::MapStart || s == ParseState::MapNeedKey
}

/// The move for token `tok`, whose bytes are `t`, read in state `top`.
pub open spec fn spec_decide(top: ParseState, tok: Token, t: Seq<u8>, caps: Caps) -> MoveView {
    if wants_value(top) {
        spec_value_move(top, tok, t, caps)
    } else if wants_key(top) {
        spec_key_move(top, tok, t)
    } else {
        spec_sep_move(top, tok)
    }
}

/// A `true` or `false` read where a value is expected goes to the
/// callbacks as that boolean: `true` for the text `true`, `false` for the
/// text `false`. A `null` goes to them as a null.
pub proof fn lemma_keyword_values_handed_over(
    s: Seq<u8>,
    p: int,
    ac: bool,
    v: bool,
    top: ParseState,
    caps: Caps,
)
    requires
        0 <= p,
        wants_value(top),
        spec_lex(s, p, ac, v).tok == Token::Bool || spec_lex(s, p, ac, v).tok == Token::Null,
    ensures
        spec_lex(s, p, ac, v).tok == Token::Null ==> spec_decide(
            top,
            Token::Null,
            spec_token_text(s, spec_lex(s, p, ac, v)),
            caps,
        ) == MoveView::Go(Some(EventView::Null), StackOp::SetTop(spec_after_value(top))),
        spec_lex(s, p, ac, v).tok == Token::Bool ==> ({
            let t = spec_token_text(s, spec_lex(s, p, ac, v));
            let next = StackOp::SetTop(spec_after_value(top));
            ||| t == seq![0x74u8, 0x72, 0x75, 0x65] && spec_decide(top, Token::Bool, t, caps)
                == MoveView::Go(Some(EventView::Boolean(true)), next)
            ||| t == seq![0x66u8, 0x61, 0x6c, 0x73, 0x65] && spec_decide(top, Token::Bool, t, caps)
                == MoveView::Go(Some(EventView::Boolean(false)), next)
        }),
{
    lemma_keyword_text(s, p, ac, v);
}

fn after_value(top: ParseState) -> (s: ParseState)
    ensures
        s == spec_after_value(top),
{
    if top == ParseState::Start || top == ParseState::GotValue {
        ParseState::ParseComplete
    } else if top == ParseState::MapNeedVal {
        ParseState::MapGotVal
    } else {
        ParseState::ArrayGotVal
    }
}

fn decoded(t: &[u8]) -> (v: Vec<u8>)
    ensures
        v@ == spec_decode(t@),
{
    let mut v: Vec<u8> = Vec::new();
    yajl_string_decode(&mut v, t);
    v
}

fn number_move(top: ParseState, tok: Token, t: &[u8], caps: Caps) -> (m: Move)
    requires
        tok == Token::Integer || tok == Token::Double,
    ensures
        m@ == spec_value_move(top, tok, t@, caps),
{
    let next = StackOp::SetTop(after_value(top));
    if caps.number {
        Move::Go(Some(Event::Number(to_vec(t))), next)
    } else if tok == Token::Integer {
        if caps.integer {
            match parse_integer(t) {
                Ok(i) => Move::Go(Some(Event::Integer(i)), next),
                Err(_) => Move::Fail(ParseError::IntegerOverflow, true),
            }
        } else {
            Move::Go(None, next)
        }
    } else if caps.double {
        double_move(top, t, strtod_len(t))
    } else {
        Move::Go(None, next)
    }
}

fn value_move(top: ParseState, tok: Token, t: &[u8], caps: Caps) -> (m: Move)
    ensures
        m@ == spec_value_move(top, tok, t@, caps),
{
    let next = StackOp::SetTop(after_value(top));
    if tok == Token::String {
        Move::Go(Some(Event::String(to_vec(t))), next)
    } else if tok == Token::StringWithEscapes {
        Move::Go(Some(Event::String(decoded(t))), next)
    } else if tok == Token::Bool {
        Move::Go(Some(Event::Boolean(t.len() > 0 && t[0] == 0x74)), next)
    } else if tok == Token::Null {
        Move::Go(Some(Event::Null), next)
    } else if tok == Token::LeftBracket {
        Move::Go(Some(Event::StartMap), StackOp::SetTopPush(after_value(top), ParseState::MapStart))
    } else if tok == Token::LeftBrace {
        Move::Go(
            Some(Event::StartArray),
            StackOp::SetTopPush(after_value(top), ParseState::ArrayStart),
        )
    } else if tok == Token::Integer || tok == Token::Double {
        number_move(top, tok, t, caps)
    } else if tok == Token::RightBrace {
        if top == ParseState::ArrayStart {
            Move::Go(Some(Event::EndArray), StackOp::Pop)
        } else {
            Move::Fail(ParseError::UnallowedToken, false)
        }
    } else if tok == Token::Colon || tok == Token::Comma || tok == Token::RightBracket {
        Move::Fail(ParseError::UnallowedToken, false)
    } else {
        Move::Fail(ParseError::InvalidToken, false)
    }
}

fn key_move(top: ParseState, tok: Token, t: &[u8]) -> (m: Move)
    ensures
        m@ == spec_key_move(top, tok, t@),
{
    if tok == Token::String {
        Move::Go(Some(Event::MapKey(to_vec(t))), StackOp::SetTop(ParseState::MapSep))
    } else if tok == Token::StringWithEscapes {
        Move::Go(Some(Event::MapKey(decoded(t))), StackOp::SetTop(ParseState::MapSep))
    } else if tok == Token::RightBracket && top == ParseState::MapStart {
        Move::Go(Some(Event::EndMap), StackOp::Pop)
    } else {
        Move::Fail(ParseError::InvalidObjectKey, false)
    }
}

fn sep_move(top: ParseState, tok: Token) -> (m: Move)
    ensures
        m@ == spec_sep_move(top, tok),
{
    if top == ParseState::MapSep {
        if tok == Token::Colon {
            Move::Go(None, StackOp::SetTop(ParseState::MapNeedVal))
        } else {
            Move::Fail(ParseError::InvalidKeyValueSeparator, false)
        }
    } else if top == ParseState::MapGotVal {
        if tok == Token::RightBracket {
            Move::Go(Some(Event::EndMap), StackOp::Pop)
        } else if tok == Token::Comma {
            Move::Go(None, StackOp::SetTop(ParseState::MapNeedKey))
        } else {
            Move::Fail(ParseError::InvalidObjectSeparator, true)
        }
    } else {
        if tok == Token::RightBrace {
            Move::Go(Some(Event::EndArray), StackOp::Pop)
        } else if tok == Token::Comma {
            Move::Go(None, StackOp::SetTop(ParseState::ArrayNeedVal))
        } else {
            Move::Fail(ParseError::InvalidArraySeparator, false)
        }
    }
}

/// The move for token `tok`, whose bytes are `t`, read in state `top`.
pub(crate) fn decide(top: ParseState, tok: Token, t: &[u8], caps: Caps) -> (m: Move)
    ensures
        m@ == spec_decide(top, tok, t@, caps),
{
    if top == ParseState::Start || top == ParseState::GotValue || top == ParseState::MapNeedVal
        || top == ParseState::ArrayNeedVal || top == ParseState::ArrayStart {
        value_move(top, tok, t, caps)
    } else if top == ParseState::MapStart || top == ParseState::MapNeedKey {
        key_move(top, tok, t)
    } else {
        sep_move(top, tok)
    }
}

/// What a lexer holds between tokens: the start of an unfinished token
/// (if any), the last error and its two options.
pub struct LexModel {
    pub held: Option<Seq<u8>>,
    pub error: LexError,
    pub comments: bool,
    pub validate: bool,
}

/// The model of a lexer.
pub open spec fn lex_model(l: RLexer) -> LexModel {
    LexModel {
        held: if l.in_use() {
            Some(l.pending())
        } else {
            None
        },
        error: l.error_state(),
        comments: l.comments_allowed(),
        validate: l.validates_utf8(),
    }
}

/// The bytes the next token is read from.
pub open spec fn lm_stream(m: LexModel, text: Seq<u8>, off: int) -> Seq<u8> {
    match m.held {
        Some(h) => h + text.subrange(off, text.len() as int),
        None => text,
    }
}

/// Where in `lm_stream` lexing starts.
pub open spec fn lm_base(m: LexModel, off: int) -> int {
    if m.held is Some {
        0
    } else {
        off
    }
}

/// The next token.
pub open spec fn lm_next(m: LexModel, text: Seq<u8>, off: int) -> LexOut {
    spec_lex(lm_stream(m, text, off), lm_base(m, off), m.comments, m.validate)
}

/// The bytes the next token carries.
pub open spec fn lm_text(m: LexModel, text: Seq<u8>, off: int) -> Seq<u8> {
    spec_token_text(lm_stream(m, text, off), lm_next(m, text, off))
}

/// The chunk offset after the next token.
pub open spec fn lm_pos(m: LexModel, text: Seq<u8>, off: int) -> int {
    let e = lm_next(m, text, off).end;
    match m.held {
        None => e,
        Some(h) => if e >= h.len() {
            off + e - h.len()
        } else {
            off
        },
    }
}

/// The lexer after the next token: an unfinished token is held, an error
/// recorded.
pub open spec fn lm_after(m: LexModel, text: Seq<u8>, off: int) -> LexModel {
    let o = lm_next(m, text, off);
    let st = lm_stream(m, text, off);
    LexModel {
        held: if o.tok == Token::Eof {
            Some(st.subrange(o.start, st.len() as int))
        } else {
            None
        },
        error: if o.tok == Token::Error {
            o.err
        } else {
            m.error
        },
        ..m
    }
}

/// The lexer's own description of a `lex` call, in terms of its model.
pub proof fn lemma_lex_model(l: RLexer, text: Seq<u8>, off: int, next: RLexer)
    requires
        l.after(text, off, next),
    ensures
        l.next(text, off) == lm_next(lex_model(l), text, off),
        l.stream(text, off) == lm_stream(lex_model(l), text, off),
        l.chunk_pos(off, l.next(text, off).end) == lm_pos(lex_model(l), text, off),
        lex_model(next) == lm_after(lex_model(l), text, off),
{
}

/// What the parser holds between steps.
pub struct Model {
    /// The state stack, bottom first.
    pub stack: Seq<ParseState>,
    /// The last parse error.
    pub error: Option<ParseError>,
    /// The lexer.
    pub lex: LexModel,
    /// How far into the chunk the parser got.
    pub consumed: int,
    /// Every event handed to the callbacks so far.
    pub events: Seq<EventView>,
}

/// `s` with its top replaced by `st`.
pub open spec fn set_top(s: Seq<ParseState>, st: ParseState) -> Seq<ParseState> {
    s.update(s.len() - 1, st)
}

/// The stack after `op`.
pub open spec fn apply_op(s: Seq<ParseState>, op: StackOp) -> Seq<ParseState> {
    match op {
        StackOp::SetTop(a) => set_top(s, a),
        StackOp::Pop => s.drop_last(),
        StackOp::SetTopPush(a, b) => set_top(s, a).push(b),
    }
}

/// `off` moved back over `n` bytes, stopping at zero.
pub open spec fn rewound(off: int, n: int) -> int {
    if off >= n {
        off - n
    } else {
        0
    }
}

/// A step from `ParseComplete`: with `AllowMultipleValues` a new value may
/// start; with `AllowTrailingGarbage`, or at the end of the chunk, the parse
/// stops; otherwise anything but whitespace is trailing garbage.
pub open spec fn complete_step(m: Model, text: Seq<u8>, off: int, flags: u32) -> (
    Model,
    int,
    Option<Status>,
) {
    if flags & 8 != 0 {
        (Model { stack: set_top(m.stack, ParseState::GotValue), ..m }, off, None)
    } else if flags & 4 != 0 || off == text.len() {
        (Model { consumed: off, ..m }, off, Some(Status::Success))
    } else {
        let o = lm_next(m.lex, text, off);
        let off2 = lm_pos(m.lex, text, off);
        let lex2 = lm_after(m.lex, text, off);
        if o.tok != Token::Eof {
            (
                Model {
                    stack: set_top(m.stack, ParseState::ParseError),
                    error: Some(ParseError::TrailingGarbage),
                    lex: lex2,
                    consumed: off2,
                    ..m
                },
                off2,
                Some(Status::Error),
            )
        } else {
            (Model { lex: lex2, consumed: off2, ..m }, off2, Some(Status::Success))
        }
    }
}

/// Carrying out the move for a token that ended at `off2`: a failure
/// records the parse error; otherwise the event (if any) goes to the
/// callbacks, and unless they cancel, the stack changes.
pub open spec fn take_move<C: Callbacks>(m: Model, cb: C::Model, mv: MoveView, tlen: int, off2: int) -> (
    Model,
    C::Model,
    Option<Status>,
) {
    match mv {
        MoveView::Fail(e, rw) => (
            Model {
                stack: set_top(m.stack, ParseState::ParseError),
                error: Some(e),
                consumed: if rw {
                    rewound(off2, tlen)
                } else {
                    off2
                },
                ..m
            },
            cb,
            Some(Status::Error),
        ),
        MoveView::Go(None, op) => (Model { stack: apply_op(m.stack, op), ..m }, cb, None),
        MoveView::Go(Some(e), op) => {
            let a = C::after(cb, e);
            if a.1 == CallbackStatus::Cancel {
                (
                    Model {
                        stack: set_top(m.stack, ParseState::ParseError),
                        error: Some(ParseError::ClientCancelled),
                        consumed: off2,
                        events: m.events.push(e),
                        ..m
                    },
                    a.0,
                    Some(Status::ClientCanceled),
                )
            } else {
                (Model { stack: apply_op(m.stack, op), events: m.events.push(e), ..m }, a.0, None)
            }
        },
    }
}

/// A step that reads one token and acts on it.
pub open spec fn token_step<C: Callbacks>(
    m: Model,
    cb: C::Model,
    text: Seq<u8>,
    off: int,
    caps: Caps,
) -> (
    Model,
    C::Model,
    int,
    Option<Status>,
) {
    let o = lm_next(m.lex, text, off);
    let off2 = lm_pos(m.lex, text, off);
    let lex2 = lm_after(m.lex, text, off);
    if o.tok == Token::Eof {
        (Model { lex: lex2, consumed: off2, ..m }, cb, off2, Some(Status::Success))
    } else if o.tok == Token::Error {
        (
            Model { stack: set_top(m.stack, ParseState::LexicalError), lex: lex2, consumed: off2, ..m },
            cb,
            off2,
            Some(Status::Error),
        )
    } else {
        let t = lm_text(m.lex, text, off);
        let r = take_move::<C>(
            Model { lex: lex2, ..m },
            cb,
            spec_decide(m.stack.last(), o.tok, t, caps),
            t.len() as int,
            off2,
        );
        (r.0, r.1, off2, r.2)
    }
}

/// One step of the parser on chunk `text` at `off`: the new model and
/// callbacks, the new offset, and the status when the parse call returns
/// with it.
pub open spec fn model_step<C: Callbacks>(
    m: Model,
    cb: C::Model,
    text: Seq<u8>,
    off: int,
    flags: u32,
    caps: Caps,
) -> (Model, C::Model, int, Option<Status>) {
    if m.stack.last() == ParseState::ParseComplete {
        let r = complete_step(m, text, off, flags);
        (r.0, cb, r.1, r.2)
    } else {
        token_step::<C>(m, cb, text, off, caps)
    }
}

/// A bound on the steps left: each token read consumes text or drops the
/// held bytes, and a completed value may turn into a new start once.
pub open spec fn work(m: Model, len: int, off: int) -> int {
    4 * (len - off) + 2 * (if m.lex.held is Some {
        1int
    } else {
        0int
    }) + (if m.stack.last() == ParseState::ParseComplete {
        1int
    } else {
        0int
    })
}

/// The parser run over chunk `text` from `off` until a step returns: the
/// final model, callbacks and status. A parser in an error state stays
/// there and reports `Error`.
pub open spec fn model_run<C: Callbacks>(
    m: Model,
    cb: C::Model,
    text: Seq<u8>,
    off: int,
    flags: u32,
    caps: Caps,
) -> (Model, C::Model, Status)
    decreases work(m, text.len() as int, off),
{
    if m.stack.last() == ParseState::ParseError || m.stack.last() == ParseState::LexicalError {
        (m, cb, Status::Error)
    } else {
        let r = model_step::<C>(m, cb, text, off, flags, caps);
        match r.3 {
            Some(st) => (r.0, r.1, st),
            None => if 0 <= work(r.0, text.len() as int, r.2) < work(m, text.len() as int, off) {
                model_run::<C>(r.0, r.1, text, r.2, flags, caps)
            } else {
                (r.0, r.1, Status::Success)
            },
        }
    }
}

/// A parser in an error state stays there: a run reports `Error` and
/// changes nothing, callbacks included.
pub proof fn lemma_error_state_stays<C: Callbacks>(
    m: Model,
    cb: C::Model,
    text: Seq<u8>,
    off: int,
    flags: u32,
    caps: Caps,
)
    requires
        m.stack.last() == ParseState::ParseError || m.stack.last() == ParseState::LexicalError,
    ensures
        model_run::<C>(m, cb, text, off, flags, caps) == (m, cb, Status::Error),
{
}

/// The parser never takes an event back: the events after a run extend
/// those before it.
pub proof fn lemma_events_extend<C: Callbacks>(
    m: Model,
    cb: C::Model,
    text: Seq<u8>,
    off: int,
    flags: u32,
    caps: Caps,
)
    ensures
        m.events.is_prefix_of(model_run::<C>(m, cb, text, off, flags, caps).0.events),
    decreases work(m, text.len() as int, off),
{
    if m.stack.last() == ParseState::ParseError || m.stack.last() == ParseState::LexicalError {
    } else {
        let r = model_step::<C>(m, cb, text, off, flags, caps);
        assert(m.events.is_prefix_of(r.0.events));
        match r.3 {
            Some(st) => {},
            None => {
                if 0 <= work(r.0, text.len() as int, r.2) < work(m, text.len() as int, off) {
                    lemma_events_extend::<C>(r.0, r.1, text, r.2, flags, caps);
                }
            },
        }
    }
}

} // verus!
