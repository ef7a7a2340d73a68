use vstd::prelude::*;

use crate::lexer::is_digit;
use crate::machine::EventView;

verus! {

/// The options a parser can be configured with, one bit each in its flags.
#[derive(Debug, Clone, Copy, PartialEq, Eq, Structural)]
pub enum ParserOption {
    /// Skip `//` and `/* */` comments.
    AllowComments,
    /// Do not check that strings are valid UTF-8.
    DontValidateStrings,
    /// Stop at the end of the first value and ignore what follows.
    AllowTrailingGarbage,
    /// Accept a stream of values separated by whitespace.
    AllowMultipleValues,
    /// Do not report an error when the input ends inside a value.
    AllowPartialValues,
}

impl ParserOption {
    /// The flag bit of the option.
    pub open spec fn spec_bit(self) -> u32 {
        match self {
            ParserOption::AllowComments => 1,
            ParserOption::DontValidateStrings => 2,
            ParserOption::AllowTrailingGarbage => 4,
            ParserOption::AllowMultipleValues => 8,
            ParserOption::AllowPartialValues => 16,
        }
    }

    /// The flag bit of the option.
    pub fn bit(&self) -> (b: u32)
        ensures
            b == self.spec_bit(),
    {
        match self {
            ParserOption::AllowComments => 1,
            ParserOption::DontValidateStrings => 2,
            ParserOption::AllowTrailingGarbage => 4,
            ParserOption::AllowMultipleValues => 8,
            ParserOption::AllowPartialValues => 16,
        }
    }

    /// The option whose flag bit is `x`.
    pub open spec fn spec_from_repr(x: u32) -> Option<ParserOption> {
        if x == 1 {
            Some(ParserOption::AllowComments)
        } else if x == 2 {
            Some(ParserOption::DontValidateStrings)
        } else if x == 4 {
            Some(ParserOption::AllowTrailingGarbage)
        } else if x == 8 {
            Some(ParserOption::AllowMultipleValues)
        } else if x == 16 {
            Some(ParserOption::AllowPartialValues)
        } else {
            None
        }
    }

    /// The option whose flag bit is `x`, if any.
    pub fn from_repr(x: u32) -> (r: Option<ParserOption>)
        ensures
            r == Self::spec_from_repr(x),
    {
        match x {
            1 => Some(ParserOption::AllowComments),
            2 => Some(ParserOption::DontValidateStrings),
            4 => Some(ParserOption::AllowTrailingGarbage),
            8 => Some(ParserOption::AllowMultipleValues),
            16 => Some(ParserOption::AllowPartialValues),
            _ => None,
        }
    }
}

/// `from_repr` reads back the flag bit of every option, and every value it
/// accepts is the flag bit of the option it returns.
pub proof fn lemma_option_repr_roundtrip(o: ParserOption, x: u32)
    ensures
        ParserOption::spec_from_repr(o.spec_bit()) == Some(o),
        ParserOption::spec_from_repr(x) matches Some(p) ==> p.spec_bit() == x,
{
}

/// The options of a parser, one field per option.
#[derive(Debug, Clone, Copy)]
pub struct ParserOptions {
    pub allow_comments: bool,
    pub dont_validate_strings: bool,
    pub allow_multiple_values: bool,
    pub allow_partial_values: bool,
    pub allow_trailing_garbage: bool,
}

impl Default for ParserOptions {
    /// Every option off.
    fn default() -> (r: Self)
        ensures
            !r.allow_comments,
            !r.dont_validate_strings,
            !r.allow_multiple_values,
            !r.allow_partial_values,
            !r.allow_trailing_garbage,
    {
        ParserOptions {
            allow_comments: false,
            dont_validate_strings: false,
            allow_multiple_values: false,
            allow_partial_values: false,
            allow_trailing_garbage: false,
        }
    }
}

impl ParserOptions {
    /// The flags word of these options.
    pub open spec fn spec_flags(self) -> u32 {
        ((if self.allow_comments {
            1u32
        } else {
            0u32
        }) + (if self.dont_validate_strings {
            2u32
        } else {
            0u32
        }) + (if self.allow_trailing_garbage {
            4u32
        } else {
            0u32
        }) + (if self.allow_multiple_values {
            8u32
        } else {
            0u32
        }) + (if self.allow_partial_values {
            16u32
        } else {
            0u32
        })) as u32
    }

    /// The flags word of these options.
    pub fn flags(&self) -> (f: u32)
        ensures
            f == self.spec_flags(),
    {
        let mut f: u32 = 0;
        if self.allow_comments {
            f = f + 1;
        }
        if self.dont_validate_strings {
            f = f + 2;
        }
        if self.allow_trailing_garbage {
            f = f + 4;
        }
        if self.allow_multiple_values {
            f = f + 8;
        }
        if self.allow_partial_values {
            f = f + 16;
        }
        f
    }

    /// Turns comment skipping on or off.
    pub fn allow_comments(&mut self, yes: bool)
        ensures
            *final(self) == (ParserOptions { allow_comments: yes, ..*old(self) }),
    {
        self.allow_comments = yes;
    }

    /// Turns UTF-8 checking of strings off (`yes`) or on.
    pub fn dont_validate_strings(&mut self, yes: bool)
        ensures
            *final(self) == (ParserOptions { dont_validate_strings: yes, ..*old(self) }),
    {
        self.dont_validate_strings = yes;
    }

    /// Turns acceptance of several values in a row on or off.
    pub fn allow_multiple_values(&mut self, yes: bool)
        ensures
            *final(self) == (ParserOptions { allow_multiple_values: yes, ..*old(self) }),
    {
        self.allow_multiple_values = yes;
    }

    /// Turns acceptance of input that ends inside a value on or off.
    pub fn allow_partial_values(&mut self, yes: bool)
        ensures
            *final(self) == (ParserOptions { allow_partial_values: yes, ..*old(self) }),
    {
        self.allow_partial_values = yes;
    }

    /// Turns acceptance of bytes after the first value on or off.
    pub fn allow_trailing_garbage(&mut self, yes: bool)
        ensures
            *final(self) == (ParserOptions { allow_trailing_garbage: yes, ..*old(self) }),
    {
        self.allow_trailing_garbage = yes;
    }
}

/// Why `parse_integer` refused its input.
#[derive(Debug, Clone, Copy, PartialEq, Eq, Structural)]
pub enum ParseIntegerError {
    /// Too large integer detected
    Overflow,
    /// Too small integer detected
    Underflow,
    /// Non-numerical char detected
    NonNumerical(u8),
}

/// The largest value that is still multiplied by ten before the next digit
/// is added.
pub open spec fn max_to_multiply() -> int {
    i64::MAX / 10 + i64::MAX % 10
}

/// Reads the digits of `s` from `i` onto `acc`; every step first checks
/// that `acc` may still be multiplied and that the next digit fits.
pub open spec fn spec_parse_digits(s: Seq<u8>, i: int, acc: int, neg: bool) -> Result<
    int,
    ParseIntegerError,
>
    decreases s.len() - i,
{
    let over = if neg {
        ParseIntegerError::Underflow
    } else {
        ParseIntegerError::Overflow
    };
    if i >= s.len() || i < 0 {
        Ok(acc)
    } else if acc > max_to_multiply() {
        Err(over)
    } else if i64::MAX - acc * 10 < s[i] - 0x30 {
        Err(over)
    } else if !is_digit(s[i]) {
        Err(ParseIntegerError::NonNumerical(s[i]))
    } else {
        spec_parse_digits(s, i + 1, acc * 10 + (s[i] - 0x30), neg)
    }
}

/// Whether `s` starts with a minus sign.
pub open spec fn spec_negative(s: Seq<u8>) -> bool {
    s.len() > 0 && s[0] == 0x2d
}

/// Where the digits start: after an optional `-`, then an optional `+`.
pub open spec fn spec_digits_start(s: Seq<u8>) -> int {
    let i0: int = if spec_negative(s) {
        1
    } else {
        0
    };
    if i0 < s.len() && s[i0] == 0x2b {
        i0 + 1
    } else {
        i0
    }
}

/// The value of a decimal integer, or why it has none.
pub open spec fn spec_parse_integer(s: Seq<u8>) -> Result<i64, ParseIntegerError> {
    match spec_parse_digits(s, spec_digits_start(s), 0, spec_negative(s)) {
        Ok(v) => Ok(
            (if spec_negative(s) {
                -v
            } else {
                v
            }) as i64,
        ),
        Err(e) => Err(e),
    }
}

proof fn lemma_parse_digits_bound(s: Seq<u8>, i: int, acc: int, neg: bool)
    requires
        0 <= acc <= i64::MAX,
    ensures
        spec_parse_digits(s, i, acc, neg) matches Ok(v) ==> 0 <= v <= i64::MAX,
    decreases s.len() - i,
{
    if i >= s.len() || i < 0 {
    } else if acc > max_to_multiply() {
    } else if i64::MAX - acc * 10 < s[i] - 0x30 {
    } else if !is_digit(s[i]) {
    } else {
        lemma_parse_digits_bound(s, i + 1, acc * 10 + (s[i] - 0x30), neg);
    }
}

/// Parses a decimal integer with an optional sign, reporting overflow
/// (`Underflow` for negative numbers) and non-digit bytes.
pub fn parse_integer(number: &[u8]) -> (r: Result<i64, ParseIntegerError>)
    ensures
        r == spec_parse_integer(number@),
{
    let neg = number.len() > 0 && number[0] == 0x2d;
    let mut pos: usize = if neg {
        1
    } else {
        0
    };
    if pos < number.len() && number[pos] == 0x2b {
        pos = pos + 1;
    }
    let ghost start = pos;
    let mut ret: i64 = 0;
    while pos < number.len()
        invariant
            pos <= number.len(),
            0 <= ret,
            neg == spec_negative(number@),
            start == spec_digits_start(number@),
            spec_parse_digits(number@, start as int, 0, neg) == spec_parse_digits(
                number@,
                pos as int,
                ret as int,
                neg,
            ),
        decreases number.len() - pos,
    {
        let c = number[pos];
        if ret > 922337203685477587 {
            return if neg {
                Err(ParseIntegerError::Underflow)
            } else {
                Err(ParseIntegerError::Overflow)
            };
        }
        let r10: i128 = (ret as i128) * 10;
        if (i64::MAX as i128) - r10 < (c as i128) - 0x30 {
            return if neg {
                Err(ParseIntegerError::Underflow)
            } else {
                Err(ParseIntegerError::Overflow)
            };
        }
        if c < 0x30 || c > 0x39 {
            return Err(ParseIntegerError::NonNumerical(c));
        }
        ret = (r10 + ((c - 0x30) as i128)) as i64;
        pos = pos + 1;
    }
    proof {
        lemma_parse_digits_bound(number@, start as int, 0, neg);
    }
    if neg {
        Ok(-ret)
    } else {
        Ok(ret)
    }
}


/// Why the parser stopped with a parse error.
#[derive(Debug, Clone, Copy, PartialEq, Eq, Structural)]
pub enum ParseError {
    ClientCancelled,
    FloatingPointOverflow,
    IntegerOverflow,
    InvalidArraySeparator,
    InvalidKeyValueSeparator,
    InvalidObjectKey,
    InvalidObjectSeparator,
    InvalidToken,
    PrematureEof,
    TrailingGarbage,
    UnallowedToken,
}

/// The message that describes a parse error.
pub open spec fn spec_parse_error_text(e: ParseError) -> &'static str {
    match e {
        ParseError::ClientCancelled => "client cancelled parse via callback return value",
        ParseError::FloatingPointOverflow => "numeric (floating point) overflow",
        ParseError::IntegerOverflow => "integer overflow",
        ParseError::InvalidArraySeparator => "after array element, I expect ',' or ']'",
        ParseError::InvalidKeyValueSeparator => "object key and value must be separated by a colon (':')",
        ParseError::InvalidObjectKey => "invalid object key (must be a string)",
        ParseError::InvalidObjectSeparator => "after key and value, inside map, I expect ',' or '}'",
        ParseError::InvalidToken => "invalid token, internal error",
        ParseError::PrematureEof => "premature EOF",
        ParseError::TrailingGarbage => "trailing garbage",
        ParseError::UnallowedToken => "unallowed token at this point in JSON text",
    }
}

impl ParseError {
    /// The message that describes this error.
    pub fn as_str(&self) -> (s: &'static str)
        ensures
            s == spec_parse_error_text(*self),
    {
        match self {
            ParseError::ClientCancelled => "client cancelled parse via callback return value",
            ParseError::FloatingPointOverflow => "numeric (floating point) overflow",
            ParseError::IntegerOverflow => "integer overflow",
            ParseError::InvalidArraySeparator => "after array element, I expect ',' or ']'",
            ParseError::InvalidKeyValueSeparator => "object key and value must be separated by a colon (':')",
            ParseError::InvalidObjectKey => "invalid object key (must be a string)",
            ParseError::InvalidObjectSeparator => "after key and value, inside map, I expect ',' or '}'",
            ParseError::InvalidToken => "invalid token, internal error",
            ParseError::PrematureEof => "premature EOF",
            ParseError::TrailingGarbage => "trailing garbage",
            ParseError::UnallowedToken => "unallowed token at this point in JSON text",
        }
    }
}

/// The states of the parser's state stack.
#[derive(Debug, Clone, Copy, PartialEq, Eq, Structural)]
pub enum ParseState {
    Start,
    ParseComplete,
    ParseError,
    LexicalError,
    MapStart,
    MapSep,
    MapNeedVal,
    MapGotVal,
    MapNeedKey,
    ArrayStart,
    ArrayGotVal,
    ArrayNeedVal,
    GotValue,
}

/// The two states a parser cannot leave.
pub open spec fn is_error_state(s: ParseState) -> bool {
    s == ParseState::ParseError || s == ParseState::LexicalError
}

/// States that may stand at the bottom of the stack.
pub open spec fn is_bottom_state(s: ParseState) -> bool {
    s == ParseState::Start || s == ParseState::GotValue || s == ParseState::ParseComplete
        || is_error_state(s)
}

/// States that may stand above the bottom: inside an object or array.
pub open spec fn is_nested_state(s: ParseState) -> bool {
    !(s == ParseState::Start || s == ParseState::GotValue || s == ParseState::ParseComplete)
}

/// The state that replaces `s` once a value has been read in it.
pub open spec fn spec_after_value(s: ParseState) -> ParseState {
    if s == ParseState::Start || s == ParseState::GotValue {
        ParseState::ParseComplete
    } else if s == ParseState::MapNeedVal {
        ParseState::MapGotVal
    } else {
        ParseState::ArrayGotVal
    }
}

/// The stack of parser states.
pub struct RByteStack {
    stack: Vec<ParseState>,
}

impl View for RByteStack {
    type V = Seq<ParseState>;

    closed spec fn view(&self) -> Seq<ParseState> {
        self.stack@
    }
}

impl RByteStack {
    /// An empty stack.
    pub fn new() -> (s: Self)
        ensures
            s@ == Seq::<ParseState>::empty(),
    {
        RByteStack { stack: Vec::new() }
    }

    /// The number of states on the stack.
    pub fn len(&self) -> (n: usize)
        ensures
            n == self@.len(),
    {
        self.stack.len()
    }

    /// Pushes a state.
    pub fn push(&mut self, state: ParseState)
        ensures
            final(self)@ == old(self)@.push(state),
    {
        self.stack.push(state);
    }

    /// Removes the top state.
    pub fn pop(&mut self)
        requires
            old(self)@.len() > 0,
        ensures
            final(self)@ == old(self)@.drop_last(),
    {
        self.stack.pop();
    }

    /// The top state.
    pub fn top(&self) -> (s: ParseState)
        requires
            self@.len() > 0,
        ensures
            s == self@.last(),
    {
        self.stack[self.stack.len() - 1]
    }

    /// Replaces the top state.
    pub fn set_top(&mut self, state: ParseState)
        requires
            old(self)@.len() > 0,
        ensures
            final(self)@ == old(self)@.update(old(self)@.len() - 1, state),
    {
        let n = self.stack.len();
        self.stack.set(n - 1, state);
    }
}

/// What a callback asks the parser to do next.
#[derive(Debug, Clone, Copy, PartialEq, Eq, Structural)]
pub enum CallbackStatus {
    Continue,
    Cancel,
}

/// The functions a parser calls as it meets each part of the JSON text.
/// Each returns whether to go on; `Cancel` stops the parse with a
/// `ClientCancelled` error. What a call does is stated by `after`, for the
/// event the call stands for.
pub trait Callbacks: Sized {
    /// What the callbacks hold, as a mathematical value.
    type Model;

    /// The model of these callbacks.
    spec fn model(&self) -> Self::Model;

    /// The model after being handed `ev`, and the answer.
    spec fn after(m: Self::Model, ev: EventView) -> (Self::Model, CallbackStatus);

    /// A `null`.
    fn null(&mut self) -> (r: CallbackStatus)
        ensures
            final(self).model() == Self::after(old(self).model(), EventView::Null).0,
            r == Self::after(old(self).model(), EventView::Null).1,
    ;

    /// `true` or `false`.
    fn boolean(&mut self, val: bool) -> (r: CallbackStatus)
        ensures
            final(self).model() == Self::after(old(self).model(), EventView::Boolean(val)).0,
            r == Self::after(old(self).model(), EventView::Boolean(val)).1,
    ;

    /// An integer; called when `has_integer` and not `has_number`.
    fn integer(&mut self, val: i64) -> (r: CallbackStatus)
        ensures
            final(self).model() == Self::after(old(self).model(), EventView::Integer(val)).0,
            r == Self::after(old(self).model(), EventView::Integer(val)).1,
    ;

    /// The text of a number with a fraction or an exponent; called when
    /// `has_double` and not `has_number`, once the text reads as a double.
    fn double(&mut self, text: &[u8]) -> (r: CallbackStatus)
        ensures
            final(self).model() == Self::after(old(self).model(), EventView::Double(text@)).0,
            r == Self::after(old(self).model(), EventView::Double(text@)).1,
    ;

    /// The text of any number; called when `has_number`.
    fn number(&mut self, text: &[u8]) -> (r: CallbackStatus)
        ensures
            final(self).model() == Self::after(old(self).model(), EventView::Number(text@)).0,
            r == Self::after(old(self).model(), EventView::Number(text@)).1,
    ;

    /// A string value, unescaped.
    fn string(&mut self, val: &[u8]) -> (r: CallbackStatus)
        ensures
            final(self).model() == Self::after(old(self).model(), EventView::String(val@)).0,
            r == Self::after(old(self).model(), EventView::String(val@)).1,
    ;

    /// `{`.
    fn start_map(&mut self) -> (r: CallbackStatus)
        ensures
            final(self).model() == Self::after(old(self).model(), EventView::StartMap).0,
            r == Self::after(old(self).model(), EventView::StartMap).1,
    ;

    /// An object key, unescaped.
    fn map_key(&mut self, key: &[u8]) -> (r: CallbackStatus)
        ensures
            final(self).model() == Self::after(old(self).model(), EventView::MapKey(key@)).0,
            r == Self::after(old(self).model(), EventView::MapKey(key@)).1,
    ;

    /// `}`.
    fn end_map(&mut self) -> (r: CallbackStatus)
        ensures
            final(self).model() == Self::after(old(self).model(), EventView::EndMap).0,
            r == Self::after(old(self).model(), EventView::EndMap).1,
    ;

    /// `[`.
    fn start_array(&mut self) -> (r: CallbackStatus)
        ensures
            final(self).model() == Self::after(old(self).model(), EventView::StartArray).0,
            r == Self::after(old(self).model(), EventView::StartArray).1,
    ;

    /// `]`.
    fn end_array(&mut self) -> (r: CallbackStatus)
        ensures
            final(self).model() == Self::after(old(self).model(), EventView::EndArray).0,
            r == Self::after(old(self).model(), EventView::EndArray).1,
    ;

    /// Whether numbers are handed over as text.
    spec fn takes_number(&self) -> bool;

    /// Whether integers are handed over as values.
    spec fn takes_integer(&self) -> bool;

    /// Whether doubles are handed over.
    spec fn takes_double(&self) -> bool;

    /// Whether numbers are handed over as text.
    fn has_number(&self) -> (b: bool)
        ensures
            b == self.takes_number(),
    ;

    /// Whether integers are handed over as values.
    fn has_integer(&self) -> (b: bool)
        ensures
            b == self.takes_integer(),
    ;

    /// Whether doubles are handed over.
    fn has_double(&self) -> (b: bool)
        ensures
            b == self.takes_double(),
    ;
}

/// Callbacks that accept everything: the parser then only validates.
pub struct NoCallbacks;

impl Callbacks for NoCallbacks {
    type Model = ();

    open spec fn model(&self) -> () {
        ()
    }

    open spec fn after(m: (), ev: EventView) -> ((), CallbackStatus) {
        ((), CallbackStatus::Continue)
    }

    fn null(&mut self) -> (r: CallbackStatus) {
        CallbackStatus::Continue
    }

    fn boolean(&mut self, val: bool) -> (r: CallbackStatus) {
        CallbackStatus::Continue
    }

    fn integer(&mut self, val: i64) -> (r: CallbackStatus) {
        CallbackStatus::Continue
    }

    fn double(&mut self, text: &[u8]) -> (r: CallbackStatus) {
        CallbackStatus::Continue
    }

    fn number(&mut self, text: &[u8]) -> (r: CallbackStatus) {
        CallbackStatus::Continue
    }

    fn string(&mut self, val: &[u8]) -> (r: CallbackStatus) {
        CallbackStatus::Continue
    }

    fn start_map(&mut self) -> (r: CallbackStatus) {
        CallbackStatus::Continue
    }

    fn map_key(&mut self, key: &[u8]) -> (r: CallbackStatus) {
        CallbackStatus::Continue
    }

    fn end_map(&mut self) -> (r: CallbackStatus) {
        CallbackStatus::Continue
    }

    fn start_array(&mut self) -> (r: CallbackStatus) {
        CallbackStatus::Continue
    }

    fn end_array(&mut self) -> (r: CallbackStatus) {
        CallbackStatus::Continue
    }

    open spec fn takes_number(&self) -> bool {
        false
    }

    open spec fn takes_integer(&self) -> bool {
        false
    }

    open spec fn takes_double(&self) -> bool {
        false
    }

    fn has_number(&self) -> (b: bool) {
        false
    }

    fn has_integer(&self) -> (b: bool) {
        false
    }

    fn has_double(&self) -> (b: bool) {
        false
    }
}

} // verus!
