use vstd::prelude::*;

use crate::bytes::{append_str, str_bytes};
use crate::chunks::stack_shape;
use crate::lexer::{spec_lex_error_text, LexError, LexerOptions, RLexer, Token};
use crate::machine::{
    apply_op, complete_step, decide, lemma_lex_model, lex_model, model_run, model_step,
    set_top, spec_decide, take_move, token_step, work, Caps,
    Event, EventView, LexModel, Model, Move, MoveView, StackOp,
};
use crate::parser::{
    is_bottom_state, is_error_state, is_nested_state, spec_after_value, CallbackStatus,
    Callbacks, NoCallbacks, ParseError, spec_parse_error_text, ParseState, ParserOption, ParserOptions, RByteStack,
};
use crate::status::Status;

verus! {

/// States that stand only at the bottom of the stack.
pub open spec fn is_outer(s: ParseState) -> bool {
    s == ParseState::Start || s == ParseState::GotValue || s == ParseState::ParseComplete
}

/// Whether a move keeps the shape of the stack: the bottom stays an outer
/// state and everything above it stays inside an object or array.
pub open spec fn move_fits(top: ParseState, mv: MoveView) -> bool {
    match mv {
        MoveView::Fail(_, _) => true,
        MoveView::Go(_, op) => match op {
            StackOp::SetTop(a) => is_outer(top) == is_outer(a) && !is_error_state(a),
            StackOp::Pop => !is_outer(top),
            StackOp::SetTopPush(a, b) => is_outer(top) == is_outer(a) && !is_error_state(a)
                && !is_outer(b) && !is_error_state(b),
        },
    }
}

/// Every move the parser makes from a state that reads tokens keeps the
/// shape of the stack.
pub proof fn lemma_decide_fits(top: ParseState, tok: Token, t: Seq<u8>, caps: Caps)
    requires
        !is_error_state(top),
        top != ParseState::ParseComplete,
    ensures
        move_fits(top, spec_decide(top, tok, t, caps)),
{
}

/// The first line of an error report: the kind of error and its message.
pub open spec fn error_head(top: ParseState, perr: Option<ParseError>, lerr: LexError) -> Seq<u8> {
    if top == ParseState::ParseError {
        str_bytes("parse") + str_bytes(" error") + str_bytes(": ") + str_bytes(
            spec_parse_error_text(perr.unwrap()),
        ) + str_bytes("\n")
    } else if top == ParseState::LexicalError {
        str_bytes("lexical") + str_bytes(" error") + str_bytes(": ") + str_bytes(
            spec_lex_error_text(lerr),
        ) + str_bytes("\n")
    } else {
        str_bytes("unknown") + str_bytes(" error") + str_bytes("\n")
    }
}

/// A byte of the quoted text, with line breaks shown as blanks.
pub open spec fn one_line(c: u8) -> u8 {
    if c == 0x0a || c == 0x0d {
        0x20
    } else {
        c
    }
}

/// The blanks before the quoted text.
pub open spec fn context_indent(offset: int) -> int {
    if offset < 30 {
        40 - offset
    } else {
        10
    }
}

/// Where the quoted text starts: 30 bytes before the offset.
pub open spec fn context_start(offset: int) -> int {
    if offset >= 30 {
        offset - 30
    } else {
        0
    }
}

/// Where the quoted text ends: 30 bytes after the offset, or the end.
pub open spec fn context_end(len: int, offset: int) -> int {
    if offset + 30 > len {
        len
    } else {
        offset + 30
    }
}

/// The line that quotes the text around `offset`, so that the arrow line
/// below it points at `offset`.
pub open spec fn error_context(text: Seq<u8>, offset: int) -> Seq<u8> {
    let a = context_start(offset);
    let b = context_end(text.len() as int, offset);
    Seq::new(context_indent(offset) as nat, |i: int| 0x20u8) + Seq::new(
        if a < b {
            (b - a) as nat
        } else {
            0
        },
        |i: int| one_line(text[a + i]),
    ) + seq![0x0au8]
}

/// The line with the arrow.
pub open spec fn error_arrow() -> Seq<u8> {
    str_bytes("                     (right here) ------^\n")
}

/// Appends the line that quotes `text` around `offset`.
fn append_context(out: &mut Vec<u8>, text: &[u8], offset: usize)
    ensures
        final(out)@ == old(out)@ + error_context(text@, offset as int),
{
    let indent: usize = if offset < 30 {
        40 - offset
    } else {
        10
    };
    let a: usize = if offset >= 30 {
        offset - 30
    } else {
        0
    };
    let b: usize = if offset > text.len() || text.len() - offset < 30 {
        text.len()
    } else {
        offset + 30
    };
    let mut i: usize = 0;
    while i < indent
        invariant
            i <= indent,
            out@ == old(out)@ + Seq::new(i as nat, |k: int| 0x20u8),
        decreases indent - i,
    {
        out.push(0x20);
        proof {
            assert(Seq::new((i + 1) as nat, |k: int| 0x20u8) == Seq::new(i as nat, |k: int| 0x20u8).push(0x20u8));
        }
        i = i + 1;
    }
    let ghost mid = out@;
    let mut j: usize = a;
    while j < b
        invariant
            a <= j,
            j <= b || b <= a,
            b <= text.len(),
            a < b ==> j <= b,
            b <= a ==> j == a,
            out@ == mid + Seq::new((j - a) as nat, |k: int| one_line(text@[a + k])),
        decreases b - j,
    {
        let c = text[j];
        out.push(if c == 0x0a || c == 0x0d {
            0x20
        } else {
            c
        });
        proof {
            assert(Seq::new((j + 1 - a) as nat, |k: int| one_line(text@[a + k])) == Seq::new((j - a) as nat, |k: int| one_line(text@[a + k])).push(one_line(c)));
        }
        j = j + 1;
    }
    proof {
        let n: nat = if a < b { (b - a) as nat } else { 0 };
        if a < b {
            assert(j == b);
        } else {
            assert(j == a);
        }
        assert(((j - a) as nat) == n);
        assert(Seq::new((j - a) as nat, |k: int| one_line(text@[a + k])) =~= Seq::new(n, |k: int| one_line(text@[a + k])));
        assert(b as int == context_end(text.len() as int, offset as int));
    }
    out.push(0x0a);
    proof {
        assert(out@ =~= old(out)@ + error_context(text@, offset as int));
    }
}

/// The flags word after `config(opt, arg)`.
pub open spec fn config_flags(flags: u32, opt: ParserOption, arg: bool) -> u32 {
    if arg {
        flags | opt.spec_bit()
    } else {
        flags & !opt.spec_bit()
    }
}

/// `config(opt, true)` turns the option on, `config(opt, false)` turns it
/// off, and neither touches any other option.
pub proof fn lemma_config_flags(flags: u32, opt: ParserOption, other: ParserOption, arg: bool)
    ensures
        config_flags(flags, opt, true) & opt.spec_bit() != 0,
        config_flags(flags, opt, false) & opt.spec_bit() == 0,
        other != opt ==> config_flags(flags, opt, arg) & other.spec_bit() == flags
            & other.spec_bit(),
{
    let b = opt.spec_bit();
    let c = other.spec_bit();
    assert((flags | b) & b != 0 && (flags & !b) & b == 0) by (bit_vector)
        requires
            b == 1 || b == 2 || b == 4 || b == 8 || b == 16,
    ;
    if other != opt {
        assert(b != c);
        assert((flags | b) & c == flags & c && (flags & !b) & c == flags & c) by (bit_vector)
            requires
                b == 1 || b == 2 || b == 4 || b == 8 || b == 16,
                c == 1 || c == 2 || c == 4 || c == 8 || c == 16,
                b != c,
        ;
    }
}

/// A streaming JSON parser: text is handed over in chunks with `parse`,
/// and `complete_parse` ends the input.
pub struct RParser<C> {
    callbacks: C,
    lexer: RLexer,
    lexer_ready: bool,
    state_stack: RByteStack,
    bytes_consumed: usize,
    flags: u32,
    options: ParserOptions,
    active: u32,
    caps: Caps,
    parse_error: Option<ParseError>,
    events: Ghost<Seq<EventView>>,
}

impl<C> RParser<C> {
    /// The state of the parser.
    pub closed spec fn model(self) -> Model {
        Model {
            stack: self.state_stack@,
            error: self.parse_error,
            lex: lex_model(self.lexer),
            consumed: self.bytes_consumed as int,
            events: self.events@,
        }
    }

    /// The state stack, bottom first.
    pub open spec fn stack(self) -> Seq<ParseState> {
        self.model().stack
    }

    /// The state on top of the stack.
    pub open spec fn top(self) -> ParseState {
        self.stack().last()
    }

    /// The last parse error recorded.
    pub open spec fn error(self) -> Option<ParseError> {
        self.model().error
    }

    /// How far into the last chunk the parser got.
    pub open spec fn consumed(self) -> int {
        self.model().consumed
    }

    /// The events handed to the callbacks so far.
    pub open spec fn events(self) -> Seq<EventView> {
        self.model().events
    }

    /// The flags word that `config` sets and clears (zero when made).
    pub closed spec fn spec_flags(self) -> u32 {
        self.flags
    }

    /// The options the parser was made with.
    pub closed spec fn spec_options(self) -> ParserOptions {
        self.options
    }

    /// The options in force: those the parser was made with and those
    /// turned on by `config`.
    pub open spec fn active_flags(self) -> u32 {
        self.spec_flags() | self.spec_options().spec_flags()
    }

    /// Which number callbacks the client takes.
    pub closed spec fn spec_caps(self) -> Caps {
        self.caps
    }

    /// Whether the lexer has been made (at the first `parse` or `complete_parse`).
    pub closed spec fn lexer_made(self) -> bool {
        self.lexer_ready
    }

    /// The callbacks.
    pub closed spec fn spec_callbacks(self) -> C {
        self.callbacks
    }

    /// The model a parse call starts from: a lexer not made yet is made
    /// from the options in force at the first call.
    pub open spec fn prepared(self) -> Model {
        let m = self.model();
        Model {
            lex: if self.lexer_made() {
                m.lex
            } else {
                LexModel {
                    held: None,
                    error: LexError::NoError,
                    comments: self.active_flags() & 1 != 0,
                    validate: self.active_flags() & 2 == 0,
                }
            },
            consumed: 0,
            ..m
        }
    }

    /// The stack is never empty, only its bottom may be outside an
    /// object or array, and a parse error is recorded when the top says so.
    pub closed spec fn wf(self) -> bool {
        let st = self.state_stack@;
        &&& st.len() >= 1
        &&& is_bottom_state(st[0])
        &&& forall|i: int| 1 <= i < st.len() ==> is_nested_state(#[trigger] st[i])
        &&& forall|i: int| 0 <= i < st.len() - 1 ==> !is_error_state(#[trigger] st[i])
        &&& st.last() == ParseState::ParseError ==> self.parse_error is Some
        &&& self.active == self.flags | self.options.spec_flags()
    }

    /// Replacing the top by an error state keeps the invariant.
    proof fn lemma_set_error(self, other: Self, st: ParseState)
        requires
            self.wf(),
            is_error_state(st),
            other.state_stack@ == set_top(self.state_stack@, st),
            other.parse_error is Some,
            other.active == self.active,
            other.flags == self.flags,
            other.options == self.options,
        ensures
            other.wf(),
    {
        let a = self.state_stack@;
        let b = other.state_stack@;
        assert forall|i: int| 1 <= i < b.len() implies is_nested_state(#[trigger] b[i]) by {
            if i < a.len() - 1 {
                assert(b[i] == a[i]);
            }
        }
        assert forall|i: int| 0 <= i < b.len() - 1 implies !is_error_state(#[trigger] b[i]) by {
            assert(b[i] == a[i]);
        }
    }

    /// A move that fits keeps the invariant.
    proof fn lemma_apply_op(self, other: Self, op: StackOp)
        requires
            self.wf(),
            !is_error_state(self.top()),
            move_fits(self.top(), MoveView::Go(None, op)),
            other.state_stack@ == apply_op(self.state_stack@, op),
            other.parse_error == self.parse_error,
            other.active == self.active,
            other.flags == self.flags,
            other.options == self.options,
        ensures
            other.wf(),
    {
        self.lemma_top_depth();
        let a = self.state_stack@;
        let b = other.state_stack@;
        assert forall|i: int| 1 <= i < b.len() implies is_nested_state(#[trigger] b[i]) by {
            if i < a.len() - 1 {
                assert(b[i] == a[i]);
            }
        }
        assert forall|i: int| 0 <= i < b.len() - 1 implies !is_error_state(#[trigger] b[i]) by {
            if i < a.len() - 1 {
                assert(b[i] == a[i]);
            }
        }
        assert(b.len() >= 1);
        if a.len() > 1 {
            assert(b[0] == a[0]);
        }
    }

    /// The stack of a well-formed parser has the shape that the chunk law
    /// (`lemma_parse_in_chunks`) asks of the model it starts from.
    pub proof fn lemma_stack_shape(self)
        requires
            self.wf(),
        ensures
            stack_shape(self.stack()),
            stack_shape(self.prepared().stack),
    {
    }

    proof fn lemma_top_depth(self)
        requires
            self.wf(),
        ensures
            is_outer(self.top()) ==> self.state_stack@.len() == 1,
            !is_outer(self.top()) && !is_error_state(self.top()) ==> self.state_stack@.len() >= 2,
    {
        let st = self.state_stack@;
        if st.len() > 1 {
            assert(is_nested_state(st[st.len() - 1]));
        }
    }

    /// Turns an option on (`arg`) or off in the flags word; options the
    /// parser was made with stay on, and a lexer already made keeps its own.
    pub fn config(&mut self, opt: ParserOption, arg: bool) -> (ok: bool)
        requires
            old(self).wf(),
        ensures
            ok,
            final(self).wf(),
            final(self).spec_flags() == config_flags(old(self).spec_flags(), opt, arg),
            final(self).spec_options() == old(self).spec_options(),
            final(self).model() == old(self).model(),
            final(self).spec_caps() == old(self).spec_caps(),
            final(self).lexer_made() == old(self).lexer_made(),
            final(self).spec_callbacks() == old(self).spec_callbacks(),
    {
        let b = opt.bit();
        if arg {
            self.flags = self.flags | b;
        } else {
            self.flags = self.flags & !b;
        }
        self.active = self.flags | self.options.flags();
        true
    }

    /// How many bytes of the last chunk the parser consumed.
    pub fn get_bytes_consumed(&self) -> (n: usize)
        ensures
            n == self.consumed(),
    {
        self.bytes_consumed
    }

    /// The callbacks.
    pub fn callbacks(&self) -> (c: &C)
        ensures
            *c == self.spec_callbacks(),
    {
        &self.callbacks
    }

    /// Gives back the callbacks, ending the parser.
    pub fn into_callbacks(self) -> (c: C)
        ensures
            c == self.spec_callbacks(),
    {
        self.callbacks
    }

    /// Describes the error the parser stopped with; with `verbose`, also
    /// quotes `json_text` around the offset reached and points at it.
    pub fn get_error(&self, verbose: bool, json_text: &[u8]) -> (s: Vec<u8>)
        requires
            self.wf(),
        ensures
            s@ == error_head(self.top(), self.error(), self.model().lex.error) + if verbose {
                error_context(json_text@, self.consumed()) + error_arrow()
            } else {
                Seq::empty()
            },
    {
        let mut out: Vec<u8> = Vec::new();
        let top = self.state_stack.top();
        if top == ParseState::ParseError {
            append_str(&mut out, "parse");
            append_str(&mut out, " error");
            append_str(&mut out, ": ");
            match self.parse_error {
                Some(e) => append_str(&mut out, e.as_str()),
                None => {},
            }
            append_str(&mut out, "\n");
        } else if top == ParseState::LexicalError {
            append_str(&mut out, "lexical");
            append_str(&mut out, " error");
            append_str(&mut out, ": ");
            append_str(&mut out, self.lexer.get_error().as_str());
            append_str(&mut out, "\n");
        } else {
            append_str(&mut out, "unknown");
            append_str(&mut out, " error");
            append_str(&mut out, "\n");
        }
        if verbose {
            let ghost head = out@;
            append_context(&mut out, json_text, self.bytes_consumed);
            append_str(&mut out, "                     (right here) ------^\n");
        }
        out
    }
}

impl RParser<NoCallbacks> {
    /// A parser that only validates, with every option off.
    pub fn new() -> (p: Self)
        ensures
            p.wf(),
            p.stack() == seq![ParseState::Start],
            p.spec_flags() == 0,
            p.spec_options() == (ParserOptions {
                allow_comments: false,
                dont_validate_strings: false,
                allow_multiple_values: false,
                allow_partial_values: false,
                allow_trailing_garbage: false,
            }),
            p.error() is None,
            p.consumed() == 0,
            p.events() == Seq::<EventView>::empty(),
            p.lexer_made(),
            p.model().lex == (LexModel {
                held: None,
                error: LexError::NoError,
                comments: false,
                validate: true,
            }),
            p.spec_caps() == (Caps { number: false, integer: false, double: false }),
    {
        Self::with_options(ParserOptions::default())
    }

    /// A parser that only validates, with the given options. The options
    /// are kept apart from the flags word, which starts at zero, so `config`
    /// cannot take back what they turn on; the lexer is made from them here.
    pub fn with_options(options: ParserOptions) -> (p: Self)
        ensures
            p.wf(),
            p.stack() == seq![ParseState::Start],
            p.spec_flags() == 0,
            p.spec_options() == options,
            p.error() is None,
            p.consumed() == 0,
            p.events() == Seq::<EventView>::empty(),
            p.lexer_made(),
            p.model().lex == (LexModel {
                held: None,
                error: LexError::NoError,
                comments: options.allow_comments,
                validate: !options.dont_validate_strings,
            }),
            p.spec_caps() == (Caps { number: false, integer: false, double: false }),
    {
        RParser::make(
            NoCallbacks,
            options,
            Caps { number: false, integer: false, double: false },
            true,
        )
    }
}

/// What `complete_parse` makes of the run over its closing blank: a parse
/// that ends inside a value (or before any) is premature unless
/// `AllowPartialValues` (flag 16) is set.
pub open spec fn finish(m: Model, st: Status, flags: u32) -> (Model, Status) {
    if st != Status::Success {
        (m, st)
    } else if m.stack.last() == ParseState::GotValue || m.stack.last() == ParseState::ParseComplete
        || flags & 16 != 0 {
        (m, Status::Success)
    } else {
        (
            Model {
                stack: set_top(m.stack, ParseState::ParseError),
                error: Some(ParseError::PrematureEof),
                ..m
            },
            Status::Error,
        )
    }
}

impl<C: Callbacks> RParser<C> {
    /// A parser that hands what it reads to `callbacks`; which number
    /// callbacks it calls is asked of `callbacks` once, here. The options
    /// are kept apart from the flags word, which starts at zero; the lexer
    /// is made at the first parse call, from the options and the flags that
    /// `config` has turned on by then.
    pub fn with_callbacks(callbacks: C, options: ParserOptions) -> (p: Self)
        ensures
            p.wf(),
            p.stack() == seq![ParseState::Start],
            p.spec_flags() == 0,
            p.spec_options() == options,
            p.error() is None,
            p.consumed() == 0,
            p.events() == Seq::<EventView>::empty(),
            !p.lexer_made(),
            p.spec_callbacks() == callbacks,
            p.spec_caps() == (Caps {
                number: callbacks.takes_number(),
                integer: callbacks.takes_integer(),
                double: callbacks.takes_double(),
            }),
    {
        let caps = Caps {
            number: callbacks.has_number(),
            integer: callbacks.has_integer(),
            double: callbacks.has_double(),
        };
        RParser::make(callbacks, options, caps, false)
    }
}

impl<C> RParser<C> {
    fn make(callbacks: C, options: ParserOptions, caps: Caps, lexer_now: bool) -> (p: Self)
        ensures
            p.wf(),
            p.stack() == seq![ParseState::Start],
            p.spec_flags() == 0,
            p.spec_options() == options,
            p.error() is None,
            p.consumed() == 0,
            p.events() == Seq::<EventView>::empty(),
            p.lexer_made() == lexer_now,
            lexer_now ==> p.model().lex == (LexModel {
                held: None,
                error: LexError::NoError,
                comments: options.allow_comments,
                validate: !options.dont_validate_strings,
            }),
            p.spec_callbacks() == callbacks,
            p.spec_caps() == caps,
    {
        let mut state_stack = RByteStack::new();
        state_stack.push(ParseState::Start);
        let lexer = if lexer_now {
            RLexer::new(options.allow_comments, !options.dont_validate_strings)
        } else {
            RLexer::new(false, true)
        };
        let active = options.flags();
        proof {
            let f = options.spec_flags();
            assert(0u32 | f == f) by (bit_vector);
        }
        RParser {
            callbacks,
            lexer,
            lexer_ready: lexer_now,
            state_stack,
            bytes_consumed: 0,
            flags: 0,
            options,
            active,
            caps,
            parse_error: None,
            events: Ghost(Seq::empty()),
        }
    }
}

impl<C: Callbacks> RParser<C> {

    /// Makes the lexer from the options in force, the first time only.
    fn ensure_lexer(&mut self)
        requires
            old(self).wf(),
        ensures
            final(self).wf(),
            final(self).lexer_made(),
            final(self).model() == (Model { consumed: old(self).consumed(), ..old(self).prepared() }),
            final(self).callbacks == old(self).callbacks,
            final(self).flags == old(self).flags,
            final(self).active == old(self).active,
            final(self).options == old(self).options,
            final(self).caps == old(self).caps,
    {
        if !self.lexer_ready {
            self.lexer = RLexer::with_options(
                LexerOptions {
                    allow_comments: self.active & 1 != 0,
                    validate_utf8: self.active & 2 == 0,
                },
            );
            self.lexer_ready = true;
        }
    }

    /// Hands an event to the callbacks.
    fn fire(&mut self, ev: &Event) -> (r: CallbackStatus)
        ensures
            final(self).model() == old(self).model(),
            final(self).callbacks.model() == C::after(old(self).callbacks.model(), ev@).0,
            r == C::after(old(self).callbacks.model(), ev@).1,
            final(self).flags == old(self).flags,
            final(self).active == old(self).active,
            final(self).options == old(self).options,
            final(self).caps == old(self).caps,
            final(self).lexer_ready == old(self).lexer_ready,
            final(self).wf() == old(self).wf(),
    {
        match ev {
            Event::Null => self.callbacks.null(),
            Event::Boolean(b) => self.callbacks.boolean(*b),
            Event::Integer(i) => self.callbacks.integer(*i),
            Event::Double(t) => self.callbacks.double(t.as_slice()),
            Event::Number(t) => self.callbacks.number(t.as_slice()),
            Event::String(t) => self.callbacks.string(t.as_slice()),
            Event::StartMap => self.callbacks.start_map(),
            Event::MapKey(t) => self.callbacks.map_key(t.as_slice()),
            Event::EndMap => self.callbacks.end_map(),
            Event::StartArray => self.callbacks.start_array(),
            Event::EndArray => self.callbacks.end_array(),
        }
    }

    /// Carries out a move decided for a token of `tlen` bytes that ended at
    /// `off`.
    fn apply(&mut self, mv: Move, tlen: usize, off: usize) -> (r: Option<Status>)
        requires
            old(self).wf(),
            !is_error_state(old(self).top()),
            move_fits(old(self).top(), mv@),
        ensures
            final(self).wf(),
            final(self).flags == old(self).flags,
            final(self).active == old(self).active,
            final(self).options == old(self).options,
            final(self).caps == old(self).caps,
            final(self).lexer_ready == old(self).lexer_ready,
            ({
                let t = take_move::<C>(
                    old(self).model(),
                    old(self).callbacks.model(),
                    mv@,
                    tlen as int,
                    off as int,
                );
                final(self).model() == t.0 && final(self).callbacks.model() == t.1 && r == t.2
            }),
    {
        proof {
            self.lemma_top_depth();
        }
        match mv {
            Move::Fail(e, rw) => {
                let at = if rw {
                    if off >= tlen {
                        off - tlen
                    } else {
                        0
                    }
                } else {
                    off
                };
                let ghost before = *self;
                self.state_stack.set_top(ParseState::ParseError);
                self.parse_error = Some(e);
                self.bytes_consumed = at;
                proof {
                    before.lemma_set_error(*self, ParseState::ParseError);
                }
                Some(Status::Error)
            },
            Move::Go(ev, op) => {
                match ev {
                    Some(e) => {
                        self.events = Ghost(self.events@.push(e@));
                        if self.fire(&e) == CallbackStatus::Cancel {
                            let ghost before = *self;
                            self.state_stack.set_top(ParseState::ParseError);
                            self.parse_error = Some(ParseError::ClientCancelled);
                            self.bytes_consumed = off;
                            proof {
                                before.lemma_set_error(*self, ParseState::ParseError);
                            }
                            return Some(Status::ClientCanceled);
                        }
                    },
                    None => {},
                }
                let ghost before = *self;
                match op {
                    StackOp::SetTop(a) => {
                        self.state_stack.set_top(a);
                    },
                    StackOp::Pop => {
                        self.state_stack.pop();
                    },
                    StackOp::SetTopPush(a, b) => {
                        self.state_stack.set_top(a);
                        self.state_stack.push(b);
                    },
                }
                proof {
                    before.lemma_apply_op(*self, op);
                }
                None
            },
        }
    }

    /// One step from `ParseComplete`.
    fn step_complete(&mut self, text: &[u8], offset: &mut usize) -> (r: Option<Status>)
        requires
            old(self).wf(),
            old(self).bytes_consumed <= text.len(),
            old(self).lexer_ready,
            *old(offset) <= text.len(),
            old(self).top() == ParseState::ParseComplete,
        ensures
            final(self).wf(),
            final(self).lexer_ready,
            final(self).flags == old(self).flags,
            final(self).active == old(self).active,
            final(self).options == old(self).options,
            final(self).caps == old(self).caps,
            final(self).callbacks == old(self).callbacks,
            *old(offset) <= *final(offset) <= text.len(),
            final(self).bytes_consumed <= text.len(),
            ({
                let s = complete_step(old(self).model(), text@, *old(offset) as int, old(self).active);
                final(self).model() == s.0 && *final(offset) == s.1 && r == s.2
            }),
            r is None ==> !is_error_state(final(self).top()) && work(
                final(self).model(),
                text.len() as int,
                *final(offset) as int,
            ) < work(old(self).model(), text.len() as int, *old(offset) as int),
            r matches Some(st) ==> ((st == Status::Success) == !is_error_state(final(self).top())),
    {
        proof {
            self.lemma_top_depth();
        }
        if self.active & 8 != 0 {
            let ghost before = *self;
            self.state_stack.set_top(ParseState::GotValue);
            proof {
                before.lemma_apply_op(*self, StackOp::SetTop(ParseState::GotValue));
            }
            return None;
        }
        if self.active & 4 != 0 || *offset == text.len() {
            self.bytes_consumed = *offset;
            return Some(Status::Success);
        }
        let ghost lex0 = self.lexer;
        let ghost off0 = *offset as int;
        let (tok, _b) = self.lexer.lex(text, offset);
        proof {
            lemma_lex_model(lex0, text@, off0, self.lexer);
        }
        if tok != Token::Eof {
            let ghost before = *self;
            self.state_stack.set_top(ParseState::ParseError);
            self.parse_error = Some(ParseError::TrailingGarbage);
            self.bytes_consumed = *offset;
            proof {
                before.lemma_set_error(*self, ParseState::ParseError);
            }
            return Some(Status::Error);
        }
        self.bytes_consumed = *offset;
        Some(Status::Success)
    }

    /// One step that reads a token and acts on it.
    #[verifier::rlimit(60)]
    fn step_token(&mut self, text: &[u8], offset: &mut usize) -> (r: Option<Status>)
        requires
            old(self).wf(),
            old(self).bytes_consumed <= text.len(),
            old(self).lexer_ready,
            *old(offset) <= text.len(),
            old(self).top() != ParseState::ParseComplete,
            !is_error_state(old(self).top()),
        ensures
            final(self).wf(),
            final(self).lexer_ready,
            final(self).flags == old(self).flags,
            final(self).active == old(self).active,
            final(self).options == old(self).options,
            final(self).caps == old(self).caps,
            *old(offset) <= *final(offset) <= text.len(),
            final(self).bytes_consumed <= text.len(),
            ({
                let s = token_step::<C>(
                    old(self).model(),
                    old(self).callbacks.model(),
                    text@,
                    *old(offset) as int,
                    old(self).caps,
                );
                final(self).model() == s.0 && final(self).callbacks.model() == s.1 && *final(offset) == s.2
                    && r == s.3
            }),
            r is None ==> !is_error_state(final(self).top()) && work(
                final(self).model(),
                text.len() as int,
                *final(offset) as int,
            ) < work(old(self).model(), text.len() as int, *old(offset) as int),
            r matches Some(st) ==> ((st == Status::Success) == !is_error_state(final(self).top())),
    {
        let top = self.state_stack.top();
        let ghost lex0 = self.lexer;
        let ghost off0 = *offset as int;
        let (tok, buf) = self.lexer.lex(text, offset);
        proof {
            lemma_lex_model(lex0, text@, off0, self.lexer);
        }
        if tok == Token::Eof {
            self.bytes_consumed = *offset;
            return Some(Status::Success);
        }
        if tok == Token::Error {
            let ghost before = *self;
            self.state_stack.set_top(ParseState::LexicalError);
            self.bytes_consumed = *offset;
            proof {
                let a = before.state_stack@;
                let b = self.state_stack@;
                assert forall|i: int| 1 <= i < b.len() implies is_nested_state(#[trigger] b[i]) by {
                    if i < a.len() - 1 {
                        assert(b[i] == a[i]);
                    }
                }
                assert forall|i: int| 0 <= i < b.len() - 1 implies !is_error_state(#[trigger] b[i]) by {
                    assert(b[i] == a[i]);
                }
            }
            return Some(Status::Error);
        }
        let mv = decide(top, tok, buf.as_slice(), self.caps);
        proof {
            lemma_decide_fits(top, tok, buf@, self.caps);
        }
        self.apply(mv, buf.len(), *offset)
    }

    /// One step of the state machine.
    fn step(&mut self, text: &[u8], offset: &mut usize) -> (r: Option<Status>)
        requires
            old(self).wf(),
            old(self).bytes_consumed <= text.len(),
            old(self).lexer_ready,
            *old(offset) <= text.len(),
            !is_error_state(old(self).top()),
        ensures
            final(self).wf(),
            final(self).lexer_ready,
            final(self).flags == old(self).flags,
            final(self).active == old(self).active,
            final(self).options == old(self).options,
            final(self).caps == old(self).caps,
            *old(offset) <= *final(offset) <= text.len(),
            final(self).bytes_consumed <= text.len(),
            ({
                let s = model_step::<C>(
                    old(self).model(),
                    old(self).callbacks.model(),
                    text@,
                    *old(offset) as int,
                    old(self).active,
                    old(self).caps,
                );
                final(self).model() == s.0 && final(self).callbacks.model() == s.1 && *final(offset) == s.2
                    && r == s.3
            }),
            r is None ==> !is_error_state(final(self).top()) && work(
                final(self).model(),
                text.len() as int,
                *final(offset) as int,
            ) < work(old(self).model(), text.len() as int, *old(offset) as int),
            r matches Some(st) ==> ((st == Status::Success) == !is_error_state(final(self).top())),
    {
        if self.state_stack.top() == ParseState::ParseComplete {
            self.step_complete(text, offset)
        } else {
            self.step_token(text, offset)
        }
    }

    /// Runs the state machine over one chunk of text.
    fn run(&mut self, text: &[u8]) -> (r: Status)
        requires
            old(self).wf(),
            old(self).lexer_ready,
        ensures
            final(self).wf(),
            final(self).lexer_ready,
            final(self).flags == old(self).flags,
            final(self).active == old(self).active,
            final(self).options == old(self).options,
            final(self).caps == old(self).caps,
            final(self).bytes_consumed <= text.len(),
            ({
                let run = model_run::<C>(
                    Model { consumed: 0, ..old(self).model() },
                    old(self).callbacks.model(),
                    text@,
                    0,
                    old(self).active,
                    old(self).caps,
                );
                final(self).model() == run.0 && final(self).callbacks.model() == run.1 && r == run.2
            }),
            (r == Status::Success) == !is_error_state(final(self).top()),
    {
        let mut offset: usize = 0;
        self.bytes_consumed = 0;
        let ghost start = self.model();
        let ghost cb0 = self.callbacks.model();
        if self.state_stack.top() == ParseState::ParseError || self.state_stack.top()
            == ParseState::LexicalError {
            return Status::Error;
        }
        loop
            invariant
                self.wf(),
                self.lexer_ready,
                offset <= text.len(),
                self.bytes_consumed <= text.len(),
                self.flags == old(self).flags,
                self.active == old(self).active,
                self.options == old(self).options,
                self.caps == old(self).caps,
                !is_error_state(self.top()),
                start == (Model { consumed: 0, ..old(self).model() }),
                cb0 == old(self).callbacks.model(),
                model_run::<C>(
                    self.model(),
                    self.callbacks.model(),
                    text@,
                    offset as int,
                    self.active,
                    self.caps,
                ) == model_run::<C>(start, cb0, text@, 0, self.active, self.caps),
            decreases work(self.model(), text.len() as int, offset as int),
        {
            let ghost m0 = self.model();
            let ghost c0 = self.callbacks.model();
            let ghost off0 = offset as int;
            let r = self.step(text, &mut offset);
            match r {
                Some(st) => {
                    return st;
                },
                None => {
                    assert(model_run::<C>(m0, c0, text@, off0, self.active, self.caps) == model_run::<C>(
                        self.model(),
                        self.callbacks.model(),
                        text@,
                        offset as int,
                        self.active,
                        self.caps,
                    ));
                },
            }
        }
    }

    /// Runs the state machine over one chunk of JSON text, handing what it
    /// finds to the callbacks.
    ///
    /// The parser and its callbacks end as `model_run` says: the state
    /// machine run over `text` from the model it starts from (with the lexer
    /// made from the options in force at the first call), every event handed to the
    /// callbacks in order.
    pub fn do_parse(&mut self, text: &[u8]) -> (r: Status)
        requires
            old(self).wf(),
        ensures
            final(self).wf(),
            final(self).lexer_made(),
            final(self).spec_flags() == old(self).spec_flags(),
            final(self).spec_options() == old(self).spec_options(),
            final(self).spec_caps() == old(self).spec_caps(),
            final(self).consumed() <= text.len(),
            ({
                let run = model_run::<C>(
                    old(self).prepared(),
                    old(self).spec_callbacks().model(),
                    text@,
                    0,
                    old(self).active_flags(),
                    old(self).spec_caps(),
                );
                final(self).model() == run.0 && final(self).spec_callbacks().model() == run.1 && r == run.2
            }),
            (r == Status::Success) == !is_error_state(final(self).top()),
    {
        self.ensure_lexer();
        self.run(text)
    }

    /// Parses one chunk of JSON text, handing what it finds to the callbacks.
    /// Its contract is that of `do_parse`.
    pub fn parse(&mut self, text: &[u8]) -> (r: Status)
        requires
            old(self).wf(),
        ensures
            final(self).wf(),
            final(self).lexer_made(),
            final(self).spec_flags() == old(self).spec_flags(),
            final(self).spec_options() == old(self).spec_options(),
            final(self).spec_caps() == old(self).spec_caps(),
            final(self).consumed() <= text.len(),
            ({
                let run = model_run::<C>(
                    old(self).prepared(),
                    old(self).spec_callbacks().model(),
                    text@,
                    0,
                    old(self).active_flags(),
                    old(self).spec_caps(),
                );
                final(self).model() == run.0 && final(self).spec_callbacks().model() == run.1 && r == run.2
            }),
            (r == Status::Success) == !is_error_state(final(self).top()),
    {
        self.do_parse(text)
    }

    /// Ends the input: finishes a token still held over, then reports
    /// `PrematureEof` if the text stopped inside a value (unless
    /// `AllowPartialValues` is set) or before any value.
    pub fn complete_parse(&mut self) -> (r: Status)
        requires
            old(self).wf(),
        ensures
            final(self).wf(),
            final(self).lexer_made(),
            final(self).spec_flags() == old(self).spec_flags(),
            final(self).spec_options() == old(self).spec_options(),
            final(self).spec_caps() == old(self).spec_caps(),
            final(self).consumed() <= 1,
            ({
                let run = model_run::<C>(
                    old(self).prepared(),
                    old(self).spec_callbacks().model(),
                    seq![0x20u8],
                    0,
                    old(self).active_flags(),
                    old(self).spec_caps(),
                );
                let out = finish(run.0, run.2, old(self).active_flags());
                final(self).model() == out.0 && final(self).spec_callbacks().model() == run.1 && r == out.1
            }),
            (r == Status::Success) == !is_error_state(final(self).top()),
    {
        self.ensure_lexer();
        let space: Vec<u8> = vec![0x20];
        proof {
            assert(space@ == seq![0x20u8]);
        }
        let stat = self.run(space.as_slice());
        if stat != Status::Success {
            return stat;
        }
        proof {
            self.lemma_top_depth();
        }
        let top = self.state_stack.top();
        if top == ParseState::GotValue || top == ParseState::ParseComplete || self.active & 16 != 0 {
            Status::Success
        } else {
            let ghost before = *self;
            self.state_stack.set_top(ParseState::ParseError);
            self.parse_error = Some(ParseError::PrematureEof);
            proof {
                before.lemma_set_error(*self, ParseState::ParseError);
            }
            Status::Error
        }
    }
}

} // verus!
