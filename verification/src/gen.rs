use vstd::prelude::*;

use crate::bytes::{append_all, to_vec};
use crate::encode::{spec_encode, spec_valid_utf8, yajl_string_encode, yajl_string_validate_utf8};
use crate::lexer::is_digit;
use crate::parser::{max_to_multiply, spec_parse_digits, spec_parse_integer, ParseIntegerError};

verus! {

/// What a generator call reports.
#[allow(non_camel_case_types)]
pub type yajl_gen_status = u32;

/// The call succeeded.
pub const yajl_gen_status_ok: u32 = 0;

/// A value other than a string was given where an object key is expected.
pub const yajl_gen_keys_must_be_strings: u32 = 1;

/// Too many objects and arrays are open (the limit is 127 levels).
pub const yajl_max_depth_exceeded: u32 = 2;

/// The generator is in an error state.
pub const yajl_gen_in_error_state: u32 = 3;

/// A complete JSON value has been generated; nothing more is taken.
pub const yajl_gen_generation_complete: u32 = 4;

/// A number that is infinite or not a number was given.
pub const yajl_gen_invalid_number: u32 = 5;

/// The output goes to a print callback, so there is no buffer to get.
pub const yajl_gen_no_buf: u32 = 6;

/// A string that is not valid UTF-8 was given while validation is on.
pub const yajl_gen_invalid_string: u32 = 7;

/// Where the generator is, per nesting level.
#[allow(non_camel_case_types)]
pub type yajl_gen_state = u32;

pub const yajl_gen_start: u32 = 0;

pub const yajl_gen_map_start: u32 = 1;

pub const yajl_gen_map_key: u32 = 2;

pub const yajl_gen_map_val: u32 = 3;

pub const yajl_gen_array_start: u32 = 4;

pub const yajl_gen_in_array: u32 = 5;

pub const yajl_gen_complete: u32 = 6;

pub const yajl_gen_error: u32 = 7;

/// The options of a generator, one bit each.
#[allow(non_camel_case_types)]
pub type yajl_gen_option = u32;

/// Indent nested values and put each on a line of its own.
pub const yajl_gen_beautify: u32 = 1;

/// The text of one level of indentation.
pub const yajl_gen_indent_string: u32 = 2;

/// Send the output to a callback instead of the buffer.
pub const yajl_gen_print_callback: u32 = 4;

/// Refuse strings that are not valid UTF-8.
pub const yajl_gen_validate_utf8: u32 = 8;

/// Escape `/` in strings.
pub const yajl_gen_escape_solidus: u32 = 16;

/// The number of nesting levels a generator has room for.
pub const YAJL_MAX_DEPTH: usize = 128;

/// A JSON text generator: values are written one call at a time into a
/// buffer, and the calls are checked to form valid JSON.
#[allow(non_camel_case_types)]
pub struct yajl_gen_t {
    flags: u32,
    depth: u32,
    indent: Option<Vec<u8>>,
    state: Vec<u32>,
    buf: Vec<u8>,
}

/// What a generator holds.
#[verifier::ext_equal]
pub struct GenModel {
    pub flags: u32,
    pub depth: u32,
    /// The indentation text; `None` after an invalid one was set.
    pub indent: Option<Seq<u8>>,
    /// The state of each nesting level.
    pub state: Seq<u32>,
    /// The output so far.
    pub out: Seq<u8>,
}

impl View for yajl_gen_t {
    type V = GenModel;

    closed spec fn view(&self) -> GenModel {
        GenModel {
            flags: self.flags,
            depth: self.depth,
            indent: match self.indent {
                Some(v) => Some(v@),
                None => None,
            },
            state: self.state@,
            out: self.buf@,
        }
    }
}

impl yajl_gen_t {
    /// There is a state for every nesting level.
    pub closed spec fn wf(&self) -> bool {
        self.state@.len() == YAJL_MAX_DEPTH
    }
}

/// Whether beautifying is on.
pub open spec fn beautify(g: GenModel) -> bool {
    g.flags & yajl_gen_beautify != 0
}

/// The state of the innermost level.
pub open spec fn cur(g: GenModel) -> u32 {
    g.state[g.depth as int]
}

/// `s` repeated `n` times.
pub open spec fn repeat(s: Seq<u8>, n: nat) -> Seq<u8>
    decreases n,
{
    if n == 0 {
        Seq::empty()
    } else {
        repeat(s, (n - 1) as nat) + s
    }
}

/// Whether indentation is written at level `d` in state `st`.
pub open spec fn writes_indent(g: GenModel, st: u32, d: int) -> bool {
    beautify(g) && st != yajl_gen_map_val && d > 0
}

/// The indentation written at level `d` in state `st`.
pub open spec fn indent_text(g: GenModel, st: u32, d: int) -> Seq<u8> {
    if writes_indent(g, st, d) {
        repeat(g.indent.unwrap(), d as nat)
    } else {
        Seq::empty()
    }
}

/// What is written before a value: a comma after an earlier element or
/// key-value pair, a colon after a key, then the indentation.
pub open spec fn value_prefix(g: GenModel) -> Seq<u8> {
    let s = cur(g);
    let sep = if s == yajl_gen_map_key || s == yajl_gen_in_array {
        if beautify(g) {
            seq![0x2cu8, 0x0a]
        } else {
            seq![0x2cu8]
        }
    } else if s == yajl_gen_map_val {
        if beautify(g) {
            seq![0x3au8, 0x20]
        } else {
            seq![0x3au8]
        }
    } else {
        Seq::empty()
    };
    sep + indent_text(g, s, g.depth as int)
}

/// The state of a level once a value has been written in it.
pub open spec fn after_value(s: u32) -> u32 {
    if s == yajl_gen_start {
        yajl_gen_complete
    } else if s == yajl_gen_map_start || s == yajl_gen_map_key {
        yajl_gen_map_val
    } else if s == yajl_gen_array_start {
        yajl_gen_in_array
    } else if s == yajl_gen_map_val {
        yajl_gen_map_key
    } else {
        s
    }
}

/// The line break that ends a complete value when beautifying.
pub open spec fn value_end(g: GenModel, ns: u32) -> Seq<u8> {
    if beautify(g) && ns == yajl_gen_complete {
        seq![0x0au8]
    } else {
        Seq::empty()
    }
}

/// Why a value cannot be written now, if it cannot.
pub open spec fn value_refused(g: GenModel) -> Option<u32> {
    let s = cur(g);
    if s == yajl_gen_error {
        Some(yajl_gen_in_error_state)
    } else if s == yajl_gen_complete {
        Some(yajl_gen_generation_complete)
    } else if s == yajl_gen_map_key || s == yajl_gen_map_start {
        Some(yajl_gen_keys_must_be_strings)
    } else {
        None
    }
}

/// The generator after writing a value whose text is `text`.
pub open spec fn put_value(g: GenModel, text: Seq<u8>) -> GenModel {
    let ns = after_value(cur(g));
    GenModel {
        state: g.state.update(g.depth as int, ns),
        out: g.out + value_prefix(g) + text + value_end(g, ns),
        ..g
    }
}

/// Writing a value with text `text`: the new generator and the status.
pub open spec fn gen_value(g: GenModel, text: Seq<u8>) -> (GenModel, u32) {
    match value_refused(g) {
        Some(st) => (g, st),
        None => (put_value(g, text), yajl_gen_status_ok),
    }
}

/// Whether a value call may be made: the level is in range and, where
/// indentation would be written, there is an indentation text.
pub open spec fn value_ready(g: GenModel) -> bool {
    &&& g.depth < YAJL_MAX_DEPTH
    &&& value_refused(g) is None && writes_indent(g, cur(g), g.depth as int) ==> g.indent is Some
}

/// The decimal digits of `n`.
pub open spec fn spec_digits(n: nat) -> Seq<u8>
    decreases n,
{
    if n < 10 {
        seq![(0x30 + n) as u8]
    } else {
        spec_digits(n / 10) + seq![(0x30 + n % 10) as u8]
    }
}

/// The decimal text of `i`, with a minus sign when negative.
pub open spec fn spec_decimal(i: int) -> Seq<u8> {
    if i < 0 {
        seq![0x2du8] + spec_digits((-i) as nat)
    } else {
        spec_digits(i as nat)
    }
}

fn push_digits(out: &mut Vec<u8>, n: u64)
    ensures
        final(out)@ == old(out)@ + spec_digits(n as nat),
    decreases n,
{
    if n >= 10 {
        push_digits(out, n / 10);
    }
    out.push((0x30 + n % 10) as u8);
    proof {
        if n < 10 {
            assert(n % 10 == n);
        }
    }
}

/// Appends the decimal text of `i`.
fn push_decimal(out: &mut Vec<u8>, i: i64)
    ensures
        final(out)@ == old(out)@ + spec_decimal(i as int),
{
    if i < 0 {
        out.push(0x2d);
        let mag: u64 = (-(i as i128)) as u64;
        push_digits(out, mag);
    } else {
        push_digits(out, i as u64);
    }
}

/// A generator with every option off, writing into a buffer, with four
/// blanks as its indentation.
pub fn yajl_gen_alloc() -> (g: yajl_gen_t)
    ensures
        g.wf(),
        g@.flags == 0,
        g@.depth == 0,
        g@.indent == Some(seq![0x20u8, 0x20, 0x20, 0x20]),
        g@.state == Seq::new(YAJL_MAX_DEPTH as nat, |i: int| yajl_gen_start),
        g@.out == Seq::<u8>::empty(),
{
    let mut state: Vec<u32> = Vec::new();
    let mut i: usize = 0;
    while i < YAJL_MAX_DEPTH
        invariant
            i <= YAJL_MAX_DEPTH,
            state@ == Seq::new(i as nat, |k: int| yajl_gen_start),
        decreases YAJL_MAX_DEPTH - i,
    {
        state.push(yajl_gen_start);
        proof {
            assert(state@ =~= Seq::new((i + 1) as nat, |k: int| yajl_gen_start));
        }
        i = i + 1;
    }
    yajl_gen_t { flags: 0, depth: 0, indent: Some(vec![0x20, 0x20, 0x20, 0x20]), state, buf: Vec::new() }
}

/// Releases a generator.
pub fn yajl_gen_free(g: yajl_gen_t) {
}

/// The text of a finite double as written: its shortest text with up to
/// 20 significant digits, with `.0` added when that text is all digits
/// (and minus signs).
pub open spec fn double_text(repr: Seq<u8>) -> Seq<u8> {
    if forall|i: int| 0 <= i < repr.len() ==> is_digit(#[trigger] repr[i]) || repr[i] == 0x2d {
        repr + seq![0x2eu8, 0x30]
    } else {
        repr
    }
}

/// A double is never written as an integer. Its text starts with the repr;
/// a repr that holds a `.`, `e` or `E` is written unchanged; one made only of
/// digits and minus signs gets `.0`; and what is written always holds a byte
/// that is neither a digit nor a minus sign.
pub proof fn lemma_double_text_is_a_double(repr: Seq<u8>)
    ensures
        double_text(repr).len() >= repr.len(),
        double_text(repr).subrange(0, repr.len() as int) == repr,
        (exists|i: int|
            0 <= i < repr.len() && (#[trigger] repr[i] == 0x2e || repr[i] == 0x65 || repr[i]
                == 0x45)) ==> double_text(repr) == repr,
        (forall|i: int| 0 <= i < repr.len() ==> (0x30 <= #[trigger] repr[i] <= 0x39 || repr[i]
            == 0x2d)) ==> double_text(repr) == repr + seq![0x2eu8, 0x30],
        exists|i: int|
            0 <= i < double_text(repr).len() && !(0x30 <= #[trigger] double_text(repr)[i] <= 0x39
                || double_text(repr)[i] == 0x2d),
{
    let t = double_text(repr);
    let numeric = forall|k: int| 0 <= k < repr.len() ==> (#[trigger] repr[k] == 0x2d || is_digit(repr[k]));
    if numeric {
        assert(t.subrange(0, repr.len() as int) =~= repr);
        assert(t[repr.len() as int] == 0x2e);
    } else {
        assert(t.subrange(0, repr.len() as int) =~= repr);
        let i = choose|k: int| 0 <= k < repr.len() && !(#[trigger] repr[k] == 0x2d || is_digit(repr[k]));
        assert(t[i] == repr[i]);
    }
}

/// Why a string cannot be written now, if it cannot: strings are checked
/// for UTF-8 first (when validation is on) and may stand as object keys.
pub open spec fn string_refused(g: GenModel, s: Seq<u8>) -> Option<u32> {
    if g.flags & yajl_gen_validate_utf8 != 0 && !spec_valid_utf8(s) {
        Some(yajl_gen_invalid_string)
    } else if cur(g) == yajl_gen_error {
        Some(yajl_gen_in_error_state)
    } else if cur(g) == yajl_gen_complete {
        Some(yajl_gen_generation_complete)
    } else {
        None
    }
}

/// The quoted, escaped text of a string.
pub open spec fn string_text(g: GenModel, s: Seq<u8>) -> Seq<u8> {
    seq![0x22u8] + spec_encode(s, g.flags & yajl_gen_escape_solidus != 0) + seq![0x22u8]
}

/// Whether a string call may be made.
pub open spec fn string_ready(g: GenModel, s: Seq<u8>) -> bool {
    &&& g.depth < YAJL_MAX_DEPTH
    &&& string_refused(g, s) is None && writes_indent(g, cur(g), g.depth as int) ==> g.indent is Some
}

/// Opening an object (`{`, state `map_start`) or array (`[`, state
/// `array_start`): a new level is entered unless there are already 127.
pub open spec fn gen_open(g: GenModel, st: u32, brace: u8) -> (GenModel, u32) {
    match value_refused(g) {
        Some(r) => (g, r),
        None => {
            let out1 = g.out + value_prefix(g);
            let d = g.depth + 1;
            if d >= YAJL_MAX_DEPTH {
                (GenModel { depth: d as u32, out: out1, ..g }, yajl_max_depth_exceeded)
            } else {
                (
                    GenModel {
                        depth: d as u32,
                        state: g.state.update(d, st),
                        out: out1 + seq![brace] + if beautify(g) {
                            seq![0x0au8]
                        } else {
                            Seq::empty()
                        },
                        ..g
                    },
                    yajl_gen_status_ok,
                )
            }
        },
    }
}

/// Closing the innermost object (`}`) or array (`]`): the level below
/// counts it as a value. Closing at the outermost level reports the value
/// complete and leaves the level count wrapped below zero.
pub open spec fn gen_close(g: GenModel, brace: u8) -> (GenModel, u32) {
    let s = cur(g);
    if s == yajl_gen_error {
        (g, yajl_gen_in_error_state)
    } else if s == yajl_gen_complete {
        (g, yajl_gen_generation_complete)
    } else if g.depth == 0 {
        (GenModel { depth: u32::MAX, ..g }, yajl_gen_generation_complete)
    } else {
        let d = g.depth - 1;
        let ns = after_value(g.state[d]);
        (
            GenModel {
                depth: d as u32,
                state: g.state.update(d, ns),
                out: g.out + (if beautify(g) {
                    seq![0x0au8]
                } else {
                    Seq::empty()
                }) + indent_text(g, ns, d) + seq![brace] + value_end(g, ns),
                ..g
            },
            yajl_gen_status_ok,
        )
    }
}

/// Whether a close call may be made.
pub open spec fn close_ready(g: GenModel) -> bool {
    &&& g.depth < YAJL_MAX_DEPTH
    &&& cur(g) != yajl_gen_error && cur(g) != yajl_gen_complete && g.depth > 0 && writes_indent(
        g,
        after_value(g.state[g.depth - 1]),
        g.depth - 1,
    ) ==> g.indent is Some
}

/// The options `yajl_gen_config` turns on and off.
pub open spec fn is_flag_option(opt: u32) -> bool {
    opt == yajl_gen_beautify || opt == yajl_gen_validate_utf8 || opt == yajl_gen_escape_solidus
}

/// Whether `b` may appear in an indentation text.
pub open spec fn is_indent_byte(b: u8) -> bool {
    b == 0x0a || b == 0x0b || b == 0x0c || b == 0x09 || b == 0x0d || b == 0x20
}

fn write_indent(g: &mut yajl_gen_t, st: u32, d: u32)
    requires
        old(g).wf(),
        writes_indent(old(g)@, st, d as int) ==> old(g)@.indent is Some,
    ensures
        final(g).wf(),
        final(g)@ == (GenModel { out: old(g)@.out + indent_text(old(g)@, st, d as int), ..old(g)@ }),
{
    if g.flags & 1 != 0 && st != yajl_gen_map_val && d > 0 {
        match &g.indent {
            Some(ind) => {
                let mut i: u32 = 0;
                while i < d
                    invariant
                        i <= d,
                        g.flags == old(g).flags,
                        g.depth == old(g).depth,
                        g.state == old(g).state,
                        g.indent == old(g).indent,
                        old(g).indent == Some(*ind),
                        g.buf@ == old(g).buf@ + repeat(ind@, i as nat),
                    decreases d - i,
                {
                    append_all(&mut g.buf, ind.as_slice());
                    i = i + 1;
                }
            },
            None => {},
        }
    }
    proof {
        assert(g@ =~= (GenModel { out: old(g)@.out + indent_text(old(g)@, st, d as int), ..old(g)@ }));
    }
}

fn write_prefix(g: &mut yajl_gen_t)
    requires
        old(g).wf(),
        old(g)@.depth < YAJL_MAX_DEPTH,
        writes_indent(old(g)@, cur(old(g)@), old(g)@.depth as int) ==> old(g)@.indent is Some,
    ensures
        final(g).wf(),
        final(g)@ == (GenModel { out: old(g)@.out + value_prefix(old(g)@), ..old(g)@ }),
{
    let ghost g0 = g@;
    let s = g.state[g.depth as usize];
    if s == yajl_gen_map_key || s == yajl_gen_in_array {
        g.buf.push(0x2c);
        if g.flags & 1 != 0 {
            g.buf.push(0x0a);
        }
    } else if s == yajl_gen_map_val {
        g.buf.push(0x3a);
        if g.flags & 1 != 0 {
            g.buf.push(0x20);
        }
    }
    let d = g.depth;
    write_indent(g, s, d);
    proof {
        assert(g@.out =~= g0.out + value_prefix(g0));
        assert(g@ =~= (GenModel { out: g0.out + value_prefix(g0), ..g0 }));
    }
}

fn after_value_exec(s: u32) -> (ns: u32)
    ensures
        ns == after_value(s),
{
    if s == yajl_gen_start {
        yajl_gen_complete
    } else if s == yajl_gen_map_start || s == yajl_gen_map_key {
        yajl_gen_map_val
    } else if s == yajl_gen_array_start {
        yajl_gen_in_array
    } else if s == yajl_gen_map_val {
        yajl_gen_map_key
    } else {
        s
    }
}

/// Moves the innermost level past the value just written.
fn finish_value(g: &mut yajl_gen_t)
    requires
        old(g).wf(),
        old(g)@.depth < YAJL_MAX_DEPTH,
    ensures
        final(g).wf(),
        final(g)@ == (GenModel {
            state: old(g)@.state.update(old(g)@.depth as int, after_value(cur(old(g)@))),
            out: old(g)@.out + value_end(old(g)@, after_value(cur(old(g)@))),
            ..old(g)@
        }),
{
    let ghost g0 = g@;
    let d = g.depth as usize;
    let ns = after_value_exec(g.state[d]);
    g.state.set(d, ns);
    if g.flags & 1 != 0 && ns == yajl_gen_complete {
        g.buf.push(0x0a);
    }
    proof {
        assert(g@ =~= (GenModel {
            state: g0.state.update(g0.depth as int, after_value(cur(g0))),
            out: g0.out + value_end(g0, after_value(cur(g0))),
            ..g0
        }));
    }
}

fn refused(g: &yajl_gen_t) -> (r: Option<u32>)
    requires
        g.wf(),
        g@.depth < YAJL_MAX_DEPTH,
    ensures
        r == value_refused(g@),
{
    let s = g.state[g.depth as usize];
    if s == yajl_gen_error {
        Some(yajl_gen_in_error_state)
    } else if s == yajl_gen_complete {
        Some(yajl_gen_generation_complete)
    } else if s == yajl_gen_map_key || s == yajl_gen_map_start {
        Some(yajl_gen_keys_must_be_strings)
    } else {
        None
    }
}

/// Writes a value whose text is `text`.
fn put_text(g: &mut yajl_gen_t, text: &[u8])
    requires
        old(g).wf(),
        old(g)@.depth < YAJL_MAX_DEPTH,
        writes_indent(old(g)@, cur(old(g)@), old(g)@.depth as int) ==> old(g)@.indent is Some,
    ensures
        final(g).wf(),
        final(g)@ == put_value(old(g)@, text@),
{
    let ghost g0 = g@;
    write_prefix(g);
    append_all(&mut g.buf, text);
    finish_value(g);
    proof {
        assert(g@ =~= put_value(g0, text@));
    }
}

/// Writes an integer in decimal.
pub fn yajl_gen_integer(g: &mut yajl_gen_t, number: i64) -> (r: u32)
    requires
        old(g).wf(),
        value_ready(old(g)@),
    ensures
        final(g).wf(),
        final(g)@ == gen_value(old(g)@, spec_decimal(number as int)).0,
        r == gen_value(old(g)@, spec_decimal(number as int)).1,
{
    match refused(g) {
        Some(st) => {
            return st;
        },
        None => {},
    }
    let mut text: Vec<u8> = Vec::new();
    push_decimal(&mut text, number);
    proof {
        assert(text@ =~= spec_decimal(number as int));
    }
    put_text(g, text.as_slice());
    yajl_gen_status_ok
}

/// Writes a double given as its text (`repr`, the shortest form with up to
/// 20 significant digits); `finite` says whether the number is finite.
pub fn yajl_gen_double_text(g: &mut yajl_gen_t, finite: bool, repr: &[u8]) -> (r: u32)
    requires
        old(g).wf(),
        value_ready(old(g)@),
    ensures
        final(g).wf(),
        value_refused(old(g)@) is Some ==> final(g)@ == old(g)@ && r == value_refused(
            old(g)@,
        ).unwrap(),
        value_refused(old(g)@) is None && !finite ==> final(g)@ == old(g)@ && r
            == yajl_gen_invalid_number,
        value_refused(old(g)@) is None && finite ==> final(g)@ == put_value(
            old(g)@,
            double_text(repr@),
        ) && r == yajl_gen_status_ok,
{
    match refused(g) {
        Some(st) => {
            return st;
        },
        None => {},
    }
    if !finite {
        return yajl_gen_invalid_number;
    }
    let mut all_numeric = true;
    let mut i: usize = 0;
    while i < repr.len()
        invariant
            i <= repr.len(),
            all_numeric == forall|k: int| 0 <= k < i ==> is_digit(#[trigger] repr@[k]) || repr@[k]
                == 0x2d,
        decreases repr.len() - i,
    {
        let c = repr[i];
        if !((0x30 <= c && c <= 0x39) || c == 0x2d) {
            all_numeric = false;
        }
        i = i + 1;
    }
    let mut text: Vec<u8> = Vec::new();
    append_all(&mut text, repr);
    if all_numeric {
        text.push(0x2e);
        text.push(0x30);
    }
    proof {
        assert(text@ =~= double_text(repr@));
    }
    put_text(g, text.as_slice());
    yajl_gen_status_ok
}

/// Writes a number given as its text, unchanged.
pub fn yajl_gen_number(g: &mut yajl_gen_t, s: &[u8]) -> (r: u32)
    requires
        old(g).wf(),
        value_ready(old(g)@),
    ensures
        final(g).wf(),
        final(g)@ == gen_value(old(g)@, s@).0,
        r == gen_value(old(g)@, s@).1,
{
    match refused(g) {
        Some(st) => {
            return st;
        },
        None => {},
    }
    put_text(g, s);
    yajl_gen_status_ok
}

/// Writes `null`.
pub fn yajl_gen_null(g: &mut yajl_gen_t) -> (r: u32)
    requires
        old(g).wf(),
        value_ready(old(g)@),
    ensures
        final(g).wf(),
        final(g)@ == gen_value(old(g)@, seq![0x6eu8, 0x75, 0x6c, 0x6c]).0,
        r == gen_value(old(g)@, seq![0x6eu8, 0x75, 0x6c, 0x6c]).1,
{
    match refused(g) {
        Some(st) => {
            return st;
        },
        None => {},
    }
    let text: Vec<u8> = vec![0x6e, 0x75, 0x6c, 0x6c];
    put_text(g, text.as_slice());
    yajl_gen_status_ok
}

/// The text of a boolean.
pub open spec fn bool_text(b: bool) -> Seq<u8> {
    if b {
        seq![0x74u8, 0x72, 0x75, 0x65]
    } else {
        seq![0x66u8, 0x61, 0x6c, 0x73, 0x65]
    }
}

/// Writes `true` (any nonzero `boolean`) or `false`.
pub fn yajl_gen_bool(g: &mut yajl_gen_t, boolean: i32) -> (r: u32)
    requires
        old(g).wf(),
        value_ready(old(g)@),
    ensures
        final(g).wf(),
        final(g)@ == gen_value(old(g)@, bool_text(boolean != 0)).0,
        r == gen_value(old(g)@, bool_text(boolean != 0)).1,
{
    match refused(g) {
        Some(st) => {
            return st;
        },
        None => {},
    }
    let text: Vec<u8> = if boolean != 0 {
        vec![0x74, 0x72, 0x75, 0x65]
    } else {
        vec![0x66, 0x61, 0x6c, 0x73, 0x65]
    };
    put_text(g, text.as_slice());
    yajl_gen_status_ok
}

/// Writes a string, quoted and escaped (with `/` escaped when the
/// `escape_solidus` option is on); with `validate_utf8` on, a string that is
/// not valid UTF-8 is refused.
pub fn yajl_gen_string(g: &mut yajl_gen_t, s: &[u8]) -> (r: u32)
    requires
        old(g).wf(),
        string_ready(old(g)@, s@),
    ensures
        final(g).wf(),
        string_refused(old(g)@, s@) is Some ==> final(g)@ == old(g)@ && r == string_refused(
            old(g)@,
            s@,
        ).unwrap(),
        string_refused(old(g)@, s@) is None ==> final(g)@ == put_value(
            old(g)@,
            string_text(old(g)@, s@),
        ) && r == yajl_gen_status_ok,
{
    if g.flags & 8 != 0 && !yajl_string_validate_utf8(s) {
        return yajl_gen_invalid_string;
    }
    let st = g.state[g.depth as usize];
    if st == yajl_gen_error {
        return yajl_gen_in_error_state;
    } else if st == yajl_gen_complete {
        return yajl_gen_generation_complete;
    }
    let mut text: Vec<u8> = Vec::new();
    text.push(0x22);
    yajl_string_encode(&mut text, s, g.flags & 16 != 0);
    text.push(0x22);
    proof {
        assert(text@ =~= string_text(g@, s@));
    }
    put_text(g, text.as_slice());
    yajl_gen_status_ok
}

fn open_level(g: &mut yajl_gen_t, st: u32, brace: u8) -> (r: u32)
    requires
        old(g).wf(),
        value_ready(old(g)@),
    ensures
        final(g).wf(),
        final(g)@ == gen_open(old(g)@, st, brace).0,
        r == gen_open(old(g)@, st, brace).1,
{
    match refused(g) {
        Some(r) => {
            return r;
        },
        None => {},
    }
    let ghost g0 = g@;
    write_prefix(g);
    g.depth = g.depth + 1;
    if g.depth as usize >= YAJL_MAX_DEPTH {
        proof {
            assert(g@ =~= gen_open(g0, st, brace).0);
        }
        return yajl_max_depth_exceeded;
    }
    let d = g.depth as usize;
    g.state.set(d, st);
    g.buf.push(brace);
    if g.flags & 1 != 0 {
        g.buf.push(0x0a);
    }
    proof {
        assert(g@ =~= gen_open(g0, st, brace).0);
    }
    yajl_gen_status_ok
}

fn close_level(g: &mut yajl_gen_t, brace: u8) -> (r: u32)
    requires
        old(g).wf(),
        close_ready(old(g)@),
    ensures
        final(g).wf(),
        final(g)@ == gen_close(old(g)@, brace).0,
        r == gen_close(old(g)@, brace).1,
{
    let ghost g0 = g@;
    let s = g.state[g.depth as usize];
    if s == yajl_gen_error {
        return yajl_gen_in_error_state;
    } else if s == yajl_gen_complete {
        return yajl_gen_generation_complete;
    }
    if g.depth == 0 {
        g.depth = u32::MAX;
        proof {
            assert(g@ =~= gen_close(g0, brace).0);
        }
        return yajl_gen_generation_complete;
    }
    g.depth = g.depth - 1;
    if g.flags & 1 != 0 {
        g.buf.push(0x0a);
    }
    let d = g.depth as usize;
    let ns = after_value_exec(g.state[d]);
    g.state.set(d, ns);
    let dd = g.depth;
    write_indent(g, ns, dd);
    g.buf.push(brace);
    if g.flags & 1 != 0 && ns == yajl_gen_complete {
        g.buf.push(0x0a);
    }
    proof {
        assert(g@.out =~= gen_close(g0, brace).0.out);
        assert(g@ =~= gen_close(g0, brace).0);
    }
    yajl_gen_status_ok
}

/// Opens an object.
pub fn yajl_gen_map_open(g: &mut yajl_gen_t) -> (r: u32)
    requires
        old(g).wf(),
        value_ready(old(g)@),
    ensures
        final(g).wf(),
        final(g)@ == gen_open(old(g)@, yajl_gen_map_start, 0x7b).0,
        r == gen_open(old(g)@, yajl_gen_map_start, 0x7b).1,
{
    open_level(g, yajl_gen_map_start, 0x7b)
}

/// Closes the innermost object.
pub fn yajl_gen_map_close(g: &mut yajl_gen_t) -> (r: u32)
    requires
        old(g).wf(),
        close_ready(old(g)@),
    ensures
        final(g).wf(),
        final(g)@ == gen_close(old(g)@, 0x7d).0,
        r == gen_close(old(g)@, 0x7d).1,
{
    close_level(g, 0x7d)
}

/// Opens an array.
pub fn yajl_gen_array_open(g: &mut yajl_gen_t) -> (r: u32)
    requires
        old(g).wf(),
        value_ready(old(g)@),
    ensures
        final(g).wf(),
        final(g)@ == gen_open(old(g)@, yajl_gen_array_start, 0x5b).0,
        r == gen_open(old(g)@, yajl_gen_array_start, 0x5b).1,
{
    open_level(g, yajl_gen_array_start, 0x5b)
}

/// Closes the innermost array.
pub fn yajl_gen_array_close(g: &mut yajl_gen_t) -> (r: u32)
    requires
        old(g).wf(),
        close_ready(old(g)@),
    ensures
        final(g).wf(),
        final(g)@ == gen_close(old(g)@, 0x5d).0,
        r == gen_close(old(g)@, 0x5d).1,
{
    close_level(g, 0x5d)
}

/// Turns `beautify`, `validate_utf8` or `escape_solidus` on (nonzero `arg`)
/// or off, returning 1; any other option is refused with 0.
pub fn yajl_gen_config(g: &mut yajl_gen_t, opt: u32, arg: i32) -> (rv: i32)
    requires
        old(g).wf(),
    ensures
        final(g).wf(),
        is_flag_option(opt) ==> rv == 1 && final(g)@ == (GenModel {
            flags: if arg != 0 {
                old(g)@.flags | opt
            } else {
                old(g)@.flags & !opt
            },
            ..old(g)@
        }),
        !is_flag_option(opt) ==> rv == 0 && final(g)@ == old(g)@,
{
    if opt == yajl_gen_beautify || opt == yajl_gen_validate_utf8 || opt == yajl_gen_escape_solidus {
        if arg != 0 {
            g.flags = g.flags | opt;
        } else {
            g.flags = g.flags & !opt;
        }
        1
    } else {
        0
    }
}

/// Sets the indentation text (option `indent_string`): it may hold only
/// blanks, tabs and line breaks; any other byte leaves the generator with
/// no indentation text and returns 0. Other options are refused with 0.
pub fn yajl_gen_config_set_indent(g: &mut yajl_gen_t, opt: u32, indent: &[u8]) -> (rv: i32)
    requires
        old(g).wf(),
    ensures
        final(g).wf(),
        opt != yajl_gen_indent_string ==> rv == 0 && final(g)@ == old(g)@,
        opt == yajl_gen_indent_string ==> {
            let ok = forall|i: int| 0 <= i < indent@.len() ==> is_indent_byte(#[trigger] indent@[i]);
            &&& rv == (if ok {
                1i32
            } else {
                0i32
            })
            &&& final(g)@ == (GenModel {
                indent: if ok {
                    Some(indent@)
                } else {
                    None
                },
                ..old(g)@
            })
        },
{
    if opt != yajl_gen_indent_string {
        return 0;
    }
    let mut ok = true;
    let mut i: usize = 0;
    while i < indent.len()
        invariant
            i <= indent.len(),
            ok == forall|k: int| 0 <= k < i ==> is_indent_byte(#[trigger] indent@[k]),
        decreases indent.len() - i,
    {
        let c = indent[i];
        if !(c == 0x0a || c == 0x0b || c == 0x0c || c == 0x09 || c == 0x0d || c == 0x20) {
            ok = false;
        }
        i = i + 1;
    }
    if ok {
        g.indent = Some(to_vec(indent));
        1
    } else {
        g.indent = None;
        0
    }
}

/// Starts over: every level back to the start (the output is kept), then
/// writes `sep`, if any, to separate what comes next.
pub fn yajl_gen_reset(g: &mut yajl_gen_t, sep: Option<&[u8]>)
    requires
        old(g).wf(),
    ensures
        final(g).wf(),
        final(g)@ == (GenModel {
            depth: 0,
            state: Seq::new(YAJL_MAX_DEPTH as nat, |i: int| yajl_gen_start),
            out: match sep {
                Some(s) => old(g)@.out + s@,
                None => old(g)@.out,
            },
            ..old(g)@
        }),
{
    g.depth = 0;
    let mut i: usize = 0;
    while i < YAJL_MAX_DEPTH
        invariant
            i <= YAJL_MAX_DEPTH,
            g.state@.len() == YAJL_MAX_DEPTH,
            forall|k: int| 0 <= k < i ==> g.state@[k] == yajl_gen_start,
            g.flags == old(g).flags,
            g.depth == 0,
            g.indent == old(g).indent,
            g.buf == old(g).buf,
        decreases YAJL_MAX_DEPTH - i,
    {
        g.state.set(i, yajl_gen_start);
        i = i + 1;
    }
    match sep {
        Some(s) => append_all(&mut g.buf, s),
        None => {},
    }
    proof {
        assert(g.state@ =~= Seq::new(YAJL_MAX_DEPTH as nat, |i: int| yajl_gen_start));
    }
}

/// The output written so far.
pub fn yajl_gen_get_buf(g: &yajl_gen_t) -> (r: (u32, &[u8]))
    ensures
        r.0 == yajl_gen_status_ok,
        r.1@ == g@.out,
{
    (yajl_gen_status_ok, g.buf.as_slice())
}

/// Empties the output buffer; everything else stays.
pub fn yajl_gen_clear(g: &mut yajl_gen_t)
    requires
        old(g).wf(),
    ensures
        final(g).wf(),
        final(g)@ == (GenModel { out: Seq::empty(), ..old(g)@ }),
{
    g.buf.clear();
    proof {
        assert(g@ =~= (GenModel { out: Seq::empty(), ..old(g)@ }));
    }
}

/// Once the value is complete, the generator takes nothing more: every
/// value, open and close call reports `generation_complete` and changes
/// nothing.
pub proof fn lemma_gen_complete_stays(g: GenModel, text: Seq<u8>, st: u32, open: u8, close: u8)
    requires
        cur(g) == yajl_gen_complete,
    ensures
        gen_value(g, text) == (g, yajl_gen_generation_complete),
        gen_open(g, st, open) == (g, yajl_gen_generation_complete),
        gen_close(g, close) == (g, yajl_gen_generation_complete),
{
}

/// Without beautifying, opening an object (or array) and closing it at
/// once writes what writing the text `{}` (or `[]`) as a value writes, and
/// leaves the level it stands in as that would.
pub proof fn lemma_gen_open_close(g: GenModel, st: u32, open: u8, close: u8)
    requires
        !beautify(g),
        value_refused(g) is None,
        g.depth + 1 < YAJL_MAX_DEPTH,
        g.state.len() == YAJL_MAX_DEPTH,
        st == yajl_gen_map_start || st == yajl_gen_array_start,
    ensures
        ({
            let after = gen_close(gen_open(g, st, open).0, close);
            let direct = put_value(g, seq![open, close]);
            &&& after.1 == yajl_gen_status_ok
            &&& after.0.out == direct.out
            &&& after.0.depth == direct.depth
            &&& after.0.state[g.depth as int] == direct.state[g.depth as int]
        }),
{
    let g1 = gen_open(g, st, open).0;
    assert(g1.state[g.depth as int] == g.state[g.depth as int]);
    let after = gen_close(g1, close);
    let direct = put_value(g, seq![open, close]);
    assert(after.0.out =~= direct.out);
}

/// Whether a value, open or number call may be made now: the level is in
/// range and, where indentation would be written, there is an indentation
/// text.
pub fn yajl_gen_value_ready(g: &yajl_gen_t) -> (b: bool)
    requires
        g.wf(),
    ensures
        b == value_ready(g@),
{
    if g.depth as usize >= YAJL_MAX_DEPTH {
        return false;
    }
    let s = g.state[g.depth as usize];
    let refused = s == yajl_gen_error || s == yajl_gen_complete || s == yajl_gen_map_key || s
        == yajl_gen_map_start;
    let indents = g.flags & 1 != 0 && s != yajl_gen_map_val && g.depth > 0;
    refused || !indents || g.indent.is_some()
}

/// Whether a string call with `s` may be made now.
pub fn yajl_gen_string_ready(g: &yajl_gen_t, s: &[u8]) -> (b: bool)
    requires
        g.wf(),
    ensures
        b == string_ready(g@, s@),
{
    if g.depth as usize >= YAJL_MAX_DEPTH {
        return false;
    }
    let st = g.state[g.depth as usize];
    let refused = (g.flags & 8 != 0 && !yajl_string_validate_utf8(s)) || st == yajl_gen_error
        || st == yajl_gen_complete;
    let indents = g.flags & 1 != 0 && st != yajl_gen_map_val && g.depth > 0;
    refused || !indents || g.indent.is_some()
}

/// Whether a close call may be made now.
pub fn yajl_gen_close_ready(g: &yajl_gen_t) -> (b: bool)
    requires
        g.wf(),
    ensures
        b == close_ready(g@),
{
    if g.depth as usize >= YAJL_MAX_DEPTH {
        return false;
    }
    let st = g.state[g.depth as usize];
    if st == yajl_gen_error || st == yajl_gen_complete || g.depth == 0 {
        return true;
    }
    let d = g.depth - 1;
    let ns = after_value_exec(g.state[d as usize]);
    let indents = g.flags & 1 != 0 && ns != yajl_gen_map_val && d > 0;
    !indents || g.indent.is_some()
}

proof fn lemma_digits_shape(n: nat)
    ensures
        spec_digits(n).len() >= 1,
        forall|k: int| 0 <= k < spec_digits(n).len() ==> is_digit(#[trigger] spec_digits(n)[k]),
    decreases n,
{
    if n >= 10 {
        lemma_digits_shape(n / 10);
        let a = spec_digits(n / 10);
        let b = seq![(0x30 + n % 10) as u8];
        assert forall|k: int| 0 <= k < (a + b).len() implies is_digit(#[trigger] (a + b)[k]) by {
            if k < a.len() {
                assert((a + b)[k] == a[k]);
            }
        }
    }
}

proof fn lemma_read_digits(s: Seq<u8>, i: int, neg: bool, n: nat)
    requires
        0 <= i,
        i + spec_digits(n).len() <= s.len(),
        s.subrange(i, i + spec_digits(n).len()) == spec_digits(n),
        n <= i64::MAX,
    ensures
        spec_parse_digits(s, i, 0, neg) == spec_parse_digits(
            s,
            i + spec_digits(n).len(),
            n as int,
            neg,
        ),
    decreases n,
{
    if n < 10 {
        assert(s[i] == spec_digits(n)[0]);
    } else {
        let a = spec_digits(n / 10);
        let d = (0x30 + n % 10) as u8;
        assert(spec_digits(n) == a + seq![d]);
        assert(s.subrange(i, i + a.len()) =~= a) by {
            assert forall|k: int| 0 <= k < a.len() implies s.subrange(i, i + a.len())[k] == a[k] by {
                assert(s.subrange(i, i + spec_digits(n).len())[k] == spec_digits(n)[k]);
            }
        }
        lemma_read_digits(s, i, neg, n / 10);
        let j = i + a.len();
        assert(s[j] == spec_digits(n)[a.len() as int]);
        assert(s[j] == d);
        assert((n / 10) * 10 + n % 10 == n);
        assert(n / 10 <= max_to_multiply());
    }
}

/// Every integer the generator writes, but the most negative, reads back
/// as itself: `parse_integer` of its decimal text gives it.
pub proof fn lemma_decimal_reads_back(i: i64)
    requires
        i != i64::MIN,
    ensures
        spec_parse_integer(spec_decimal(i as int)) == Ok::<i64, ParseIntegerError>(i),
{
    let n: nat = if i < 0 {
        (-i) as nat
    } else {
        i as nat
    };
    let d = spec_digits(n);
    lemma_digits_shape(n);
    let s = spec_decimal(i as int);
    if i < 0 {
        assert(s == seq![0x2du8] + d);
        assert(s.subrange(1, 1 + d.len() as int) =~= d);
        assert(is_digit(s[1]));
        lemma_read_digits(s, 1, true, n);
    } else {
        assert(s == d);
        assert(s.subrange(0, d.len() as int) =~= d);
        assert(is_digit(s[0]));
        lemma_read_digits(s, 0, false, n);
    }
}

} // verus!
