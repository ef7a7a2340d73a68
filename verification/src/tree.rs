use vstd::prelude::*;

use crate::bytes::{append_str, copy_range, str_bytes, to_vec};
use crate::ext::{spec_strtod_len, strtod_len};
use crate::lexer::LexError;
use crate::machine::{model_run, Caps, EventView, LexModel, Model};
use crate::rparser::{error_arrow, error_context, error_head, finish, RParser};
use crate::status::Status;
use crate::parser::{
    parse_integer, spec_parse_integer, CallbackStatus, Callbacks, ParseIntegerError, ParseState,
    ParserOption, ParserOptions,
};

verus! {

/// The kinds of JSON value.
#[derive(Debug, Clone, Copy, PartialEq, Eq, Structural)]
pub enum ValueType {
    String,
    Number,
    Object,
    Array,
    True,
    False,
    Null,
    /// Not the kind of any value; asks `yajl_tree_get` for a value of any kind.
    Any,
}

impl ValueType {
    /// The number of the kind.
    pub open spec fn spec_repr(self) -> u32 {
        match self {
            ValueType::String => 1,
            ValueType::Number => 2,
            ValueType::Object => 3,
            ValueType::Array => 4,
            ValueType::True => 5,
            ValueType::False => 6,
            ValueType::Null => 7,
            ValueType::Any => 8,
        }
    }

    /// The number of the kind.
    pub fn repr(&self) -> (r: u32)
        ensures
            r == self.spec_repr(),
    {
        match self {
            ValueType::String => 1,
            ValueType::Number => 2,
            ValueType::Object => 3,
            ValueType::Array => 4,
            ValueType::True => 5,
            ValueType::False => 6,
            ValueType::Null => 7,
            ValueType::Any => 8,
        }
    }

    /// The kind numbered `r`.
    pub open spec fn spec_from_repr(r: u32) -> Option<ValueType> {
        if r == 1 {
            Some(ValueType::String)
        } else if r == 2 {
            Some(ValueType::Number)
        } else if r == 3 {
            Some(ValueType::Object)
        } else if r == 4 {
            Some(ValueType::Array)
        } else if r == 5 {
            Some(ValueType::True)
        } else if r == 6 {
            Some(ValueType::False)
        } else if r == 7 {
            Some(ValueType::Null)
        } else if r == 8 {
            Some(ValueType::Any)
        } else {
            None
        }
    }

    /// The kind numbered `r`, if any.
    pub fn from_repr(r: u32) -> (t: Option<Self>)
        ensures
            t == Self::spec_from_repr(r),
    {
        match r {
            1 => Some(Self::String),
            2 => Some(Self::Number),
            3 => Some(Self::Object),
            4 => Some(Self::Array),
            5 => Some(Self::True),
            6 => Some(Self::False),
            7 => Some(Self::Null),
            8 => Some(Self::Any),
            _ => None,
        }
    }
}

/// `from_repr` reads back the number of every kind, and every number it
/// accepts is the number of the kind it returns.
pub proof fn lemma_value_type_repr_roundtrip(t: ValueType, r: u32)
    ensures
        ValueType::spec_from_repr(t.spec_repr()) == Some(t),
        ValueType::spec_from_repr(r) matches Some(u) ==> u.spec_repr() == r,
{
}

/// Why building a tree failed.
#[derive(Debug, Clone, Copy, PartialEq, Eq, Structural)]
pub enum ValueError {
    OutOfMemory,
    ObjectKeyIsNotAString,
    CantAddValueToNonCompsiteType,
    BottomOfStackReachedPrematurely,
}

impl ValueError {
    /// The message of the error, ending in a NUL byte; only `OutOfMemory`
    /// has one.
    pub fn as_bytes_w_null(&self) -> (r: &'static [u8])
        requires
            *self == ValueError::OutOfMemory,
        ensures
            r@ == str_bytes("Out of memory\0"),
    {
        "Out of memory\0".as_bytes()
    }
}

/// A number: its text, its value as an integer (with flag 1 when the text
/// reads as one), and flag 2 when the whole text reads as a double.
pub struct Number {
    pub r: Vec<u8>,
    pub i: i64,
    pub flags: u32,
}

/// An object: its keys and, at the same positions, their values.
pub struct Object {
    pub keys: Vec<Vec<u8>>,
    pub values: Vec<Value>,
}

/// An array.
pub struct Array {
    pub values: Vec<Value>,
}

/// A JSON value.
pub enum Value {
    String(Vec<u8>),
    Number(Number),
    Object(Object),
    Array(Array),
    True,
    False,
    Null,
}

/// A JSON value as a mathematical value.
pub enum JValue {
    String(Seq<u8>),
    Number(Seq<u8>, i64, u32),
    Object(Seq<Seq<u8>>, Seq<JValue>),
    Array(Seq<JValue>),
    True,
    False,
    Null,
}

/// The values of a list of values.
pub open spec fn jv_list(vs: Seq<Value>) -> Seq<JValue>
    decreases vs,
{
    if vs.len() == 0 {
        Seq::empty()
    } else {
        seq![vs[0].jv()] + jv_list(vs.subrange(1, vs.len() as int))
    }
}

/// The texts of a list of byte vectors.
pub open spec fn bytes_list(ks: Seq<Vec<u8>>) -> Seq<Seq<u8>> {
    ks.map_values(|k: Vec<u8>| k@)
}

impl Value {
    /// The value as a mathematical value.
    pub open spec fn jv(&self) -> JValue
        decreases self,
    {
        match self {
            Value::String(s) => JValue::String(s@),
            Value::Number(n) => JValue::Number(n.r@, n.i, n.flags),
            Value::Object(o) => JValue::Object(bytes_list(o.keys@), jv_list(o.values@)),
            Value::Array(a) => JValue::Array(jv_list(a.values@)),
            Value::True => JValue::True,
            Value::False => JValue::False,
            Value::Null => JValue::Null,
        }
    }
}

/// `jv_list` maps each value on its own.
pub proof fn lemma_jv_list(vs: Seq<Value>)
    ensures
        jv_list(vs).len() == vs.len(),
        forall|i: int| 0 <= i < vs.len() ==> #[trigger] jv_list(vs)[i] == vs[i].jv(),
    decreases vs.len(),
{
    if vs.len() > 0 {
        let rest = vs.subrange(1, vs.len() as int);
        lemma_jv_list(rest);
        assert forall|i: int| 0 <= i < vs.len() implies #[trigger] jv_list(vs)[i] == vs[i].jv() by {
            if i > 0 {
                assert(rest[i - 1] == vs[i]);
            }
        }
    }
}

/// The kind of a value.
pub open spec fn jv_type(v: JValue) -> ValueType {
    match v {
        JValue::String(_) => ValueType::String,
        JValue::Number(..) => ValueType::Number,
        JValue::Object(..) => ValueType::Object,
        JValue::Array(_) => ValueType::Array,
        JValue::True => ValueType::True,
        JValue::False => ValueType::False,
        JValue::Null => ValueType::Null,
    }
}

impl Value {
    /// Whether the value is a string.
    pub fn is_string(&self) -> (b: bool)
        ensures
            b == (self.jv() is String),
    {
        match self {
            Value::String(_) => true,
            _ => false,
        }
    }

    /// Whether the value is a number.
    pub fn is_number(&self) -> (b: bool)
        ensures
            b == (self.jv() is Number),
    {
        match self {
            Value::Number(_) => true,
            _ => false,
        }
    }

    /// Whether the value is a number whose text reads as an integer.
    pub fn is_integer(&self) -> (b: bool)
        ensures
            b == (self.jv() matches JValue::Number(_, _, f) && f & 1 != 0),
    {
        match self {
            Value::Number(n) => n.flags & 1 != 0,
            _ => false,
        }
    }

    /// Whether the value is a number whose whole text reads as a double.
    pub fn is_double(&self) -> (b: bool)
        ensures
            b == (self.jv() matches JValue::Number(_, _, f) && f & 2 != 0),
    {
        match self {
            Value::Number(n) => n.flags & 2 != 0,
            _ => false,
        }
    }

    /// Whether the value is an object.
    pub fn is_object(&self) -> (b: bool)
        ensures
            b == (self.jv() is Object),
    {
        match self {
            Value::Object(_) => true,
            _ => false,
        }
    }

    /// Whether the value is an array.
    pub fn is_array(&self) -> (b: bool)
        ensures
            b == (self.jv() is Array),
    {
        match self {
            Value::Array(_) => true,
            _ => false,
        }
    }

    /// Whether the value is `true`.
    pub fn is_true(&self) -> (b: bool)
        ensures
            b == (self.jv() is True),
    {
        match self {
            Value::True => true,
            _ => false,
        }
    }

    /// Whether the value is `false`.
    pub fn is_false(&self) -> (b: bool)
        ensures
            b == (self.jv() is False),
    {
        match self {
            Value::False => true,
            _ => false,
        }
    }

    /// Whether the value is `null`.
    pub fn is_null(&self) -> (b: bool)
        ensures
            b == (self.jv() is Null),
    {
        match self {
            Value::Null => true,
            _ => false,
        }
    }

    /// The kind of the value.
    pub fn value_type(&self) -> (t: ValueType)
        ensures
            t == jv_type(self.jv()),
    {
        match self {
            Value::String(_) => ValueType::String,
            Value::Number(_) => ValueType::Number,
            Value::Object(_) => ValueType::Object,
            Value::Array(_) => ValueType::Array,
            Value::True => ValueType::True,
            Value::False => ValueType::False,
            Value::Null => ValueType::Null,
        }
    }

    /// The boolean, if the value is `true` or `false`.
    pub fn as_bool(&self) -> (r: Option<bool>)
        ensures
            r == (if self.jv() is True {
                Some(true)
            } else if self.jv() is False {
                Some(false)
            } else {
                None
            }),
    {
        match self {
            Value::True => Some(true),
            Value::False => Some(false),
            _ => None,
        }
    }

    /// The bytes of the string, if the value is a string.
    pub fn as_string(&self) -> (r: Option<&[u8]>)
        ensures
            r is Some <==> self.jv() is String,
            r matches Some(s) ==> self.jv() == JValue::String(s@),
    {
        match self {
            Value::String(s) => Some(s.as_slice()),
            _ => None,
        }
    }

    /// The bytes of the string, to change, if the value is a string.
    pub fn as_string_mut(&mut self) -> (r: Option<&mut Vec<u8>>)
        ensures
            r is Some <==> old(self).jv() is String,
            r matches Some(s) ==> old(self).jv() == JValue::String(s@) && *final(self)
                == Value::String(*final(s)),
            r is None ==> *final(self) == *old(self),
    {
        match self {
            Value::String(s) => Some(s),
            _ => None,
        }
    }

    /// The text of the number, if the value is a number.
    pub fn as_number(&self) -> (r: Option<&[u8]>)
        ensures
            r is Some <==> self.jv() is Number,
            r matches Some(t) ==> self.jv() matches JValue::Number(text, _, _) && text == t@,
    {
        match self {
            Value::Number(n) => Some(n.r.as_slice()),
            _ => None,
        }
    }

    /// The integer, if the value is a number whose text reads as one.
    pub fn as_integer(&self) -> (r: Option<i64>)
        ensures
            r is Some <==> (self.jv() matches JValue::Number(_, _, f) && f & 1 != 0),
            r matches Some(i) ==> self.jv() matches JValue::Number(_, j, _) && i == j,
    {
        match self {
            Value::Number(n) => if n.flags & 1 != 0 {
                Some(n.i)
            } else {
                None
            },
            _ => None,
        }
    }

    /// The object, if the value is one.
    pub fn as_object(&self) -> (r: Option<&Object>)
        ensures
            r is Some <==> self.jv() is Object,
            r matches Some(o) ==> self.jv() == JValue::Object(bytes_list(o.keys@), jv_list(o.values@)),
    {
        match self {
            Value::Object(o) => Some(o),
            _ => None,
        }
    }

    /// The object, to change, if the value is one.
    pub fn as_object_mut(&mut self) -> (r: Option<&mut Object>)
        ensures
            r is Some <==> old(self).jv() is Object,
            r matches Some(o) ==> old(self).jv() == JValue::Object(
                bytes_list(o.keys@),
                jv_list(o.values@),
            ) && *final(self) == Value::Object(*final(o)),
            r is None ==> *final(self) == *old(self),
    {
        match self {
            Value::Object(o) => Some(o),
            _ => None,
        }
    }

    /// The array, to change, if the value is one.
    pub fn as_array_mut(&mut self) -> (r: Option<&mut Array>)
        ensures
            r is Some <==> old(self).jv() is Array,
            r matches Some(a) ==> old(self).jv() == JValue::Array(jv_list(a.values@))
                && *final(self) == Value::Array(*final(a)),
            r is None ==> *final(self) == *old(self),
    {
        match self {
            Value::Array(a) => Some(a),
            _ => None,
        }
    }

    /// The array, if the value is one.
    pub fn as_array(&self) -> (r: Option<&Array>)
        ensures
            r is Some <==> self.jv() is Array,
            r matches Some(a) ==> self.jv() == JValue::Array(jv_list(a.values@)),
    {
        match self {
            Value::Array(a) => Some(a),
            _ => None,
        }
    }
}

/// Where the C string in `s` ends: at its first NUL byte at or after `i`,
/// or at its end.
pub open spec fn nul_pos(s: Seq<u8>, i: int) -> int
    decreases s.len() - i,
{
    if i >= s.len() || i < 0 {
        s.len() as int
    } else if s[i] == 0 {
        i
    } else {
        nul_pos(s, i + 1)
    }
}

/// The bytes of `s` before its first NUL byte.
pub open spec fn c_str(s: Seq<u8>) -> Seq<u8> {
    s.take(nul_pos(s, 0))
}

proof fn lemma_nul_pos(s: Seq<u8>, i: int)
    requires
        0 <= i <= s.len(),
    ensures
        i <= nul_pos(s, i) <= s.len(),
        forall|k: int| i <= k < nul_pos(s, i) ==> s[k] != 0,
        nul_pos(s, i) < s.len() ==> s[nul_pos(s, i)] == 0,
    decreases s.len() - i,
{
    if i < s.len() && s[i] != 0 {
        lemma_nul_pos(s, i + 1);
    }
}

fn c_len(s: &[u8]) -> (n: usize)
    ensures
        n == nul_pos(s@, 0),
{
    let mut i: usize = 0;
    while i < s.len() && s[i] != 0
        invariant
            i <= s.len(),
            nul_pos(s@, i as int) == nul_pos(s@, 0),
        decreases s.len() - i,
    {
        i = i + 1;
    }
    i
}

/// Whether two byte strings are equal as C strings.
fn c_str_eq(a: &[u8], b: &[u8]) -> (r: bool)
    ensures
        r == (c_str(a@) == c_str(b@)),
{
    let na = c_len(a);
    let nb = c_len(b);
    proof {
        lemma_nul_pos(a@, 0);
        lemma_nul_pos(b@, 0);
    }
    if na != nb {
        proof {
            assert(c_str(a@).len() != c_str(b@).len());
        }
        return false;
    }
    let mut i: usize = 0;
    while i < na
        invariant
            i <= na,
            na == nb,
            na <= a.len(),
            nb <= b.len(),
            na == nul_pos(a@, 0),
            nb == nul_pos(b@, 0),
            forall|k: int| 0 <= k < i ==> a@[k] == b@[k],
        decreases na - i,
    {
        if a[i] != b[i] {
            proof {
                assert(c_str(a@)[i as int] != c_str(b@)[i as int]);
            }
            return false;
        }
        i = i + 1;
    }
    proof {
        assert(c_str(a@) =~= c_str(b@));
    }
    true
}

/// The first position at or after `i` whose key equals `k` as a C string,
/// or the number of keys.
pub open spec fn find_key(keys: Seq<Seq<u8>>, k: Seq<u8>, i: int) -> int
    decreases keys.len() - i,
{
    if i >= keys.len() || i < 0 {
        keys.len() as int
    } else if c_str(keys[i]) == c_str(k) {
        i
    } else {
        find_key(keys, k, i + 1)
    }
}

/// The value at `path` in `v`: each step looks up a key in an object; the
/// value found must be of kind `t` (any kind for `Any`).
pub open spec fn spec_tree_get(v: JValue, path: Seq<Seq<u8>>, t: ValueType) -> Option<JValue>
    decreases path.len(),
{
    if path.len() == 0 {
        if t == ValueType::Any || t == jv_type(v) {
            Some(v)
        } else {
            None
        }
    } else {
        match v {
            JValue::Object(keys, vals) => {
                let i = find_key(keys, path[0], 0);
                if i < keys.len() && i < vals.len() {
                    spec_tree_get(vals[i], path.subrange(1, path.len() as int), t)
                } else {
                    None
                }
            },
            _ => None,
        }
    }
}

fn find_key_exec(keys: &Vec<Vec<u8>>, k: &[u8]) -> (i: usize)
    ensures
        i == find_key(bytes_list(keys@), k@, 0),
{
    let ghost ks = bytes_list(keys@);
    let mut i: usize = 0;
    while i < keys.len()
        invariant
            i <= keys.len(),
            ks == bytes_list(keys@),
            ks.len() == keys@.len(),
            find_key(ks, k@, i as int) == find_key(ks, k@, 0),
        decreases keys.len() - i,
    {
        if c_str_eq(keys[i].as_slice(), k) {
            return i;
        }
        i = i + 1;
    }
    i
}

/// Follows `path` from `n` through objects, key by key, and returns the
/// value reached if it is of kind `t` (any kind for `Any`). Nothing is
/// found without a value or without a path.
pub fn yajl_tree_get<'a>(n: Option<&'a Value>, path: Option<&[Vec<u8>]>, t: ValueType) -> (r:
    Option<&'a Value>)
    ensures
        n is None || path is None ==> r is None,
        n matches Some(v) ==> path matches Some(p) ==> {
            let expect = spec_tree_get(v.jv(), p@.map_values(|k: Vec<u8>| k@), t);
            &&& r is None <==> expect is None
            &&& r matches Some(x) ==> expect == Some(x.jv())
        },
{
    let v = match n {
        Some(v) => v,
        None => {
            return None;
        },
    };
    let p = match path {
        Some(p) => p,
        None => {
            return None;
        },
    };
    let ghost ps = p@.map_values(|k: Vec<u8>| k@);
    proof {
        assert(ps.subrange(0, ps.len() as int) =~= ps);
    }
    let mut cur: &Value = v;
    let mut k: usize = 0;
    while k < p.len()
        invariant
            k <= p.len(),
            n == Some(v),
            path == Some(p),
            ps == p@.map_values(|k: Vec<u8>| k@),
            ps.len() == p@.len(),
            spec_tree_get(v.jv(), ps, t) == spec_tree_get(
                cur.jv(),
                ps.subrange(k as int, ps.len() as int),
                t,
            ),
        decreases p.len() - k,
    {
        let ghost rest = ps.subrange(k as int, ps.len() as int);
        assert(rest.len() > 0);
        match cur {
            Value::Object(o) => {
                let i = find_key_exec(&o.keys, p[k].as_slice());
                proof {
                    assert(rest[0] == p@[k as int]@);
                    lemma_jv_list(o.values@);
                    assert(bytes_list(o.keys@).len() == o.keys@.len());
                }
                if i >= o.keys.len() || i >= o.values.len() {
                    return None;
                }
                cur = &o.values[i];
                proof {
                    assert(rest.subrange(1, rest.len() as int) =~= ps.subrange(k + 1, ps.len() as int));
                }
            },
            _ => {
                return None;
            },
        }
        k = k + 1;
    }
    proof {
        assert(ps.subrange(k as int, ps.len() as int).len() == 0);
    }
    let ct = cur.value_type();
    if t != ValueType::Any && t != ct {
        return None;
    }
    Some(cur)
}

/// `buf` after printing `msg` into it as C's `snprintf` does: at most
/// `buf.len() - 1` bytes of `msg`, then a NUL; nothing without room.
pub open spec fn snprintf(buf: Seq<u8>, msg: Seq<u8>) -> Seq<u8> {
    if buf.len() == 0 {
        buf
    } else {
        let k = if msg.len() < buf.len() {
            msg.len() as int
        } else {
            buf.len() - 1
        };
        Seq::new(
            buf.len(),
            |i: int|
                if i < k {
                    msg[i]
                } else if i == k {
                    0u8
                } else {
                    buf[i]
                },
        )
    }
}

/// Prints `msg` into `buf` as `snprintf` does.
fn print_into(buf: &mut Vec<u8>, msg: &[u8])
    ensures
        final(buf)@ == snprintf(old(buf)@, msg@),
{
    let n = buf.len();
    if n == 0 {
        return;
    }
    let k: usize = if msg.len() < n {
        msg.len()
    } else {
        n - 1
    };
    let mut i: usize = 0;
    while i < k
        invariant
            i <= k < n,
            k <= msg.len(),
            buf@.len() == n,
            n == old(buf)@.len(),
            forall|j: int| 0 <= j < i ==> buf@[j] == msg@[j],
            forall|j: int| i <= j < n ==> buf@[j] == old(buf)@[j],
        decreases k - i,
    {
        buf.set(i, msg[i]);
        i = i + 1;
    }
    buf.set(k, 0);
    proof {
        assert(buf@ =~= snprintf(old(buf)@, msg@));
    }
}

/// The text `%#04x` prints for the number of a kind.
pub open spec fn type_hex(t: ValueType) -> Seq<u8> {
    seq![0x30u8, 0x78, 0x30, (0x30 + t.spec_repr()) as u8]
}

/// The message for a value other than a string given as an object key.
pub open spec fn key_message(v: JValue) -> Seq<u8> {
    str_bytes("Context::add_value: Object key is not a string (") + type_hex(jv_type(v)) + str_bytes(
        ")",
    )
}

/// The message for a value added to something that is not an object or array.
pub open spec fn composite_message(v: JValue) -> Seq<u8> {
    str_bytes("Context::add_value: Cannot add value to a value of type ") + type_hex(jv_type(v))
        + str_bytes(" (not a composite type)")
}

/// The message for closing more than was opened.
pub open spec fn pop_message() -> Seq<u8> {
    str_bytes("context_pop: Bottom of stack reached prematurely")
}

/// An object or array being built, with the key waiting for its value.
pub struct Frame {
    pub key: Option<Seq<u8>>,
    pub value: JValue,
}

/// What a tree builder holds: the objects and arrays being built (the
/// innermost last), the finished value, and the error buffer.
pub struct CtxModel {
    pub stack: Seq<Frame>,
    pub root: Option<JValue>,
    pub errbuf: Seq<u8>,
}

/// An object or array being built, with the key waiting for its value.
pub struct StackElem {
    pub key: Option<Vec<u8>>,
    pub value: Value,
}

/// Builds a tree from the parser's events.
pub struct Context {
    pub stack: Vec<StackElem>,
    pub root: Option<Value>,
    pub errbuf: Vec<u8>,
}

/// The frame of a stack element.
pub open spec fn frame_view(e: StackElem) -> Frame {
    Frame {
        key: match e.key {
            Some(k) => Some(k@),
            None => None,
        },
        value: e.value.jv(),
    }
}

/// The model of a tree builder.
pub open spec fn ctx_view(c: &Context) -> CtxModel {
    CtxModel {
        stack: Seq::new(c.stack@.len(), |i: int| frame_view(c.stack@[i])),
        root: match c.root {
            Some(v) => Some(v.jv()),
            None => None,
        },
        errbuf: c.errbuf@,
    }
}

/// Adding a value: it becomes the finished value when nothing is being
/// built; in an object it becomes the waiting key (it must be a string) or
/// the value of the waiting key; in an array the last element.
pub open spec fn ctx_add(m: CtxModel, v: JValue) -> (CtxModel, Result<(), ValueError>) {
    if m.stack.len() == 0 {
        (CtxModel { root: Some(v), ..m }, Ok(()))
    } else {
        let n = m.stack.len() - 1;
        let top = m.stack[n];
        match top.value {
            JValue::Object(keys, vals) => match top.key {
                None => match v {
                    JValue::String(s) => (
                        CtxModel { stack: m.stack.update(n, Frame { key: Some(s), ..top }), ..m },
                        Ok(()),
                    ),
                    _ => (
                        CtxModel { errbuf: snprintf(m.errbuf, key_message(v)), ..m },
                        Err(ValueError::ObjectKeyIsNotAString),
                    ),
                },
                Some(k) => (
                    CtxModel {
                        stack: m.stack.update(
                            n,
                            Frame { key: None, value: JValue::Object(keys.push(k), vals.push(v)) },
                        ),
                        ..m
                    },
                    Ok(()),
                ),
            },
            JValue::Array(vals) => (
                CtxModel {
                    stack: m.stack.update(n, Frame { value: JValue::Array(vals.push(v)), ..top }),
                    ..m
                },
                Ok(()),
            ),
            _ => (
                CtxModel { errbuf: snprintf(m.errbuf, composite_message(top.value)), ..m },
                Err(ValueError::CantAddValueToNonCompsiteType),
            ),
        }
    }
}

/// Whether adding a value (a string, or not) fails: where an object waits
/// for a key and the value is not a string, or where the innermost value is
/// neither an object nor an array.
pub open spec fn ctx_refuses(m: CtxModel, is_string: bool) -> bool {
    m.stack.len() > 0 && match m.stack.last().value {
        JValue::Object(..) => m.stack.last().key is None && !is_string,
        JValue::Array(_) => false,
        _ => true,
    }
}

/// The model after the innermost frame is taken off.
pub open spec fn ctx_popped(m: CtxModel) -> CtxModel {
    CtxModel { stack: m.stack.drop_last(), ..m }
}

/// Whether closing the innermost object or array fails when it is added
/// to what encloses it.
pub open spec fn ctx_close_refuses(m: CtxModel) -> bool {
    m.stack.len() > 0 && ctx_refuses(ctx_popped(m), m.stack.last().value is String)
}

proof fn lemma_view_push(c: Context, d: Context, e: StackElem)
    requires
        d.stack@ == c.stack@.push(e),
    ensures
        ctx_view(&d).stack == ctx_view(&c).stack.push(frame_view(e)),
{
    assert(ctx_view(&d).stack =~= ctx_view(&c).stack.push(frame_view(e)));
}

proof fn lemma_view_pop(c: Context, d: Context)
    requires
        c.stack@.len() > 0,
        d.stack@ == c.stack@.drop_last(),
    ensures
        ctx_view(&d).stack == ctx_view(&c).stack.drop_last(),
{
    assert(ctx_view(&d).stack =~= ctx_view(&c).stack.drop_last());
}

/// Adds `v` to the frame `f`; `errbuf` takes the message of a refusal.
fn add_to_frame(f: &mut StackElem, v: Value, errbuf: &mut Vec<u8>) -> (r: Result<(), ValueError>)
    ensures
        ({
            let m = CtxModel { stack: seq![frame_view(*old(f))], root: None, errbuf: old(errbuf)@ };
            let a = ctx_add(m, v.jv());
            &&& a.0.stack == seq![frame_view(*final(f))]
            &&& a.0.errbuf == final(errbuf)@
            &&& r == a.1
        }),
{
    let ghost m = CtxModel { stack: seq![frame_view(*f)], root: None, errbuf: errbuf@ };
    let ghost vj = v.jv();
    let ghost f0 = *f;
    match &mut f.value {
        Value::Object(o) => {
            match f.key.take() {
                None => {
                    match v {
                        Value::String(s) => {
                            f.key = Some(s);
                            proof {
                                assert(seq![frame_view(*f)] =~= ctx_add(m, vj).0.stack);
                            }
                            Ok(())
                        },
                        _ => {
                            let msg = key_message_exec(v.value_type());
                            print_into(errbuf, msg.as_slice());
                            proof {
                                assert(seq![frame_view(*f)] =~= ctx_add(m, vj).0.stack);
                            }
                            Err(ValueError::ObjectKeyIsNotAString)
                        },
                    }
                },
                Some(k) => {
                    let ghost ks = o.keys@;
                    let ghost vs = o.values@;
                    o.keys.push(k);
                    o.values.push(v);
                    proof {
                        assert(bytes_list(o.keys@) =~= bytes_list(ks).push(k@));
                        lemma_jv_list(vs);
                        lemma_jv_list(o.values@);
                        assert(jv_list(o.values@) =~= jv_list(vs).push(vj));
                        assert(seq![frame_view(*f)] =~= ctx_add(m, vj).0.stack);
                    }
                    Ok(())
                },
            }
        },
        Value::Array(a) => {
            let ghost vs = a.values@;
            a.values.push(v);
            proof {
                lemma_jv_list(vs);
                lemma_jv_list(a.values@);
                assert(jv_list(a.values@) =~= jv_list(vs).push(vj));
                assert(seq![frame_view(*f)] =~= ctx_add(m, vj).0.stack);
            }
            Ok(())
        },
        _ => {
            let msg = composite_message_exec(f.value.value_type());
            print_into(errbuf, msg.as_slice());
            proof {
                assert(seq![frame_view(*f)] =~= ctx_add(m, vj).0.stack);
            }
            Err(ValueError::CantAddValueToNonCompsiteType)
        },
    }
}

fn type_hex_exec(t: ValueType, out: &mut Vec<u8>)
    requires
        t != ValueType::Any,
    ensures
        final(out)@ == old(out)@ + type_hex(t),
{
    out.push(0x30);
    out.push(0x78);
    out.push(0x30);
    out.push((0x30 + t.repr()) as u8);
    proof {
        assert(final(out)@ =~= old(out)@ + type_hex(t));
    }
}

fn key_message_exec(t: ValueType) -> (m: Vec<u8>)
    requires
        t != ValueType::Any,
    ensures
        forall|v: JValue| jv_type(v) == t ==> m@ == key_message(v),
{
    let mut m: Vec<u8> = Vec::new();
    append_str(&mut m, "Context::add_value: Object key is not a string (");
    type_hex_exec(t, &mut m);
    append_str(&mut m, ")");
    proof {
        assert(m@ =~= str_bytes("Context::add_value: Object key is not a string (") + type_hex(t)
            + str_bytes(")"));
    }
    m
}

fn composite_message_exec(t: ValueType) -> (m: Vec<u8>)
    requires
        t != ValueType::Any,
    ensures
        forall|v: JValue| jv_type(v) == t ==> m@ == composite_message(v),
{
    let mut m: Vec<u8> = Vec::new();
    append_str(&mut m, "Context::add_value: Cannot add value to a value of type ");
    type_hex_exec(t, &mut m);
    append_str(&mut m, " (not a composite type)");
    proof {
        assert(m@ =~= str_bytes("Context::add_value: Cannot add value to a value of type ")
            + type_hex(t) + str_bytes(" (not a composite type)"));
    }
    m
}

impl Context {
    /// A builder with nothing built and an error buffer of `error_buffer_size`
    /// zero bytes.
    pub fn new(error_buffer_size: usize) -> (c: Context)
        ensures
            ctx_view(&c) == (CtxModel {
                stack: Seq::empty(),
                root: None,
                errbuf: Seq::new(error_buffer_size as nat, |i: int| 0u8),
            }),
    {
        let mut errbuf: Vec<u8> = Vec::new();
        let mut i: usize = 0;
        while i < error_buffer_size
            invariant
                i <= error_buffer_size,
                errbuf@ == Seq::new(i as nat, |k: int| 0u8),
            decreases error_buffer_size - i,
        {
            errbuf.push(0);
            proof {
                assert(errbuf@ =~= Seq::new((i + 1) as nat, |k: int| 0u8));
            }
            i = i + 1;
        }
        let c = Context { stack: Vec::new(), root: None, errbuf };
        proof {
            assert(ctx_view(&c).stack =~= Seq::<Frame>::empty());
        }
        c
    }

    /// Starts building `v`, an object or array.
    pub fn push(&mut self, v: Value) -> (r: Result<(), ValueError>)
        ensures
            r is Ok,
            ctx_view(final(self)) == (CtxModel {
                stack: ctx_view(old(self)).stack.push(Frame { key: None, value: v.jv() }),
                ..ctx_view(old(self))
            }),
    {
        let ghost c0 = *self;
        let e = StackElem { key: None, value: v };
        let ghost ge = e;
        self.stack.push(e);
        proof {
            lemma_view_push(c0, *self, ge);
        }
        Ok(())
    }

    /// Takes the innermost value being built off the stack; with nothing
    /// being built, the error buffer takes a message and the call fails.
    pub fn pop(&mut self) -> (r: Result<Value, ValueError>)
        ensures
            ctx_view(old(self)).stack.len() == 0 ==> r == Err::<Value, ValueError>(
                ValueError::BottomOfStackReachedPrematurely,
            ) && ctx_view(final(self)) == (CtxModel {
                errbuf: snprintf(ctx_view(old(self)).errbuf, pop_message()),
                ..ctx_view(old(self))
            }),
            ctx_view(old(self)).stack.len() > 0 ==> (r matches Ok(v) && v.jv() == ctx_view(
                old(self),
            ).stack.last().value && ctx_view(final(self)) == ctx_popped(ctx_view(old(self)))),
    {
        if self.stack.len() == 0 {
            let mut msg: Vec<u8> = Vec::new();
            append_str(&mut msg, "context_pop: Bottom of stack reached prematurely");
            proof {
                assert(msg@ =~= pop_message());
            }
            print_into(&mut self.errbuf, msg.as_slice());
            proof {
                assert(ctx_view(self).stack =~= ctx_view(old(self)).stack);
            }
            return Err(ValueError::BottomOfStackReachedPrematurely);
        }
        let ghost c0 = *self;
        let e = self.stack.pop().unwrap();
        proof {
            lemma_view_pop(c0, *self);
            assert(frame_view(e) == ctx_view(&c0).stack.last());
        }
        Ok(e.value)
    }

    /// Adds a finished value (see `ctx_add`).
    pub fn add_value(&mut self, v: Value) -> (r: Result<(), ValueError>)
        ensures
            ctx_view(final(self)) == ctx_add(ctx_view(old(self)), v.jv()).0,
            r == ctx_add(ctx_view(old(self)), v.jv()).1,
    {
        let ghost vj = v.jv();
        if self.stack.len() == 0 {
            self.root = Some(v);
            proof {
                assert(ctx_view(self).stack =~= ctx_view(old(self)).stack);
            }
            return Ok(());
        }
        let ghost c0 = *self;
        let mut top = self.stack.pop().unwrap();
        let ghost t0 = top;
        let r = add_to_frame(&mut top, v, &mut self.errbuf);
        let ghost t1 = top;
        self.stack.push(top);
        proof {
            let m0 = ctx_view(&c0);
            let n = m0.stack.len() - 1;
            assert(frame_view(t0) == m0.stack[n]);
            let m1 = CtxModel { stack: seq![frame_view(t0)], root: None, errbuf: c0.errbuf@ };
            let x = ctx_add(m1, vj).0.stack[0];
            assert(ctx_add(m0, vj).0.stack =~= m0.stack.update(n, x));
            assert(ctx_add(m0, vj).0.errbuf == ctx_add(m1, vj).0.errbuf);
            assert(ctx_add(m0, vj).1 == ctx_add(m1, vj).1);
            assert(x == frame_view(t1));
            assert(ctx_view(self).stack =~= ctx_add(m0, vj).0.stack);
            assert(ctx_view(self) =~= ctx_add(m0, vj).0);
        }
        r
    }

    /// Prints the C string in `msg_with_nul` into the error buffer as
    /// `snprintf` does.
    pub fn record_error(&mut self, msg_with_nul: &[u8])
        requires
            forall|i: int| 0 <= i < c_str(msg_with_nul@).len() ==> #[trigger] c_str(msg_with_nul@)[i] != 0x25,
        ensures
            ctx_view(final(self)) == (CtxModel {
                errbuf: snprintf(ctx_view(old(self)).errbuf, c_str(msg_with_nul@)),
                ..ctx_view(old(self))
            }),
    {
        let n = c_len(msg_with_nul);
        proof {
            lemma_nul_pos(msg_with_nul@, 0);
        }
        let msg = copy_range(msg_with_nul, 0, n);
        print_into(&mut self.errbuf, msg.as_slice());
        proof {
            assert(msg@ =~= c_str(msg_with_nul@));
            assert(ctx_view(self).stack =~= ctx_view(old(self)).stack);
        }
    }

    /// Whether adding a value (a string, or not) would fail.
    pub fn refuses(&self, is_string: bool) -> (b: bool)
        ensures
            b == ctx_refuses(ctx_view(self), is_string),
    {
        if self.stack.len() == 0 {
            return false;
        }
        let n = self.stack.len() - 1;
        proof {
            assert(frame_view(self.stack@[n as int]) == ctx_view(self).stack.last());
        }
        match &self.stack[n].value {
            Value::Object(_) => self.stack[n].key.is_none() && !is_string,
            Value::Array(_) => false,
            _ => true,
        }
    }

    /// Whether closing the innermost object or array would fail.
    pub fn close_refuses(&self) -> (b: bool)
        ensures
            b == ctx_close_refuses(ctx_view(self)),
    {
        let len = self.stack.len();
        if len == 0 {
            return false;
        }
        let n = len - 1;
        let is_string = self.stack[n].value.is_string();
        proof {
            assert(frame_view(self.stack@[n as int]) == ctx_view(self).stack.last());
        }
        if n == 0 {
            return false;
        }
        let p = n - 1;
        proof {
            assert(frame_view(self.stack@[p as int]) == ctx_popped(ctx_view(self)).stack.last());
        }
        match &self.stack[p].value {
            Value::Object(_) => self.stack[p].key.is_none() && !is_string,
            Value::Array(_) => false,
            _ => true,
        }
    }
}

/// The integer a number stands for, from what `parse_integer` read of its
/// text: its value, or the nearest bound when it is out of range (and
/// `i64::MAX` when it is no integer).
pub open spec fn int_of(read: Result<i64, ParseIntegerError>) -> i64 {
    match read {
        Ok(i) => i,
        Err(ParseIntegerError::Underflow) => i64::MIN,
        Err(_) => i64::MAX,
    }
}

/// The flags of a number: 1 when its text reads as an integer, 2 when the
/// whole of it (`len` bytes) reads as a double.
pub open spec fn flags_of(int_read: Result<i64, ParseIntegerError>, dbl_read: Option<usize>, len: int) -> u32 {
    ((if int_read is Ok {
        1u32
    } else {
        0u32
    }) + (if dbl_read == Some(len as usize) {
        2u32
    } else {
        0u32
    })) as u32
}

/// The value a number's text `s` becomes; its text is read up to its
/// first NUL byte.
pub open spec fn number_value(s: Seq<u8>) -> JValue {
    let t = c_str(s);
    JValue::Number(
        s,
        int_of(spec_parse_integer(t)),
        flags_of(spec_parse_integer(t), spec_strtod_len(t), s.len() as int),
    )
}

/// The number of text `s`, given what `parse_integer` read of its text
/// (`int_read`) and how much of it reads as a double (`dbl_read`).
pub fn number_from_reads(
    s: &[u8],
    int_read: Result<i64, ParseIntegerError>,
    dbl_read: Option<usize>,
) -> (v: Value)
    ensures
        v.jv() == JValue::Number(s@, int_of(int_read), flags_of(int_read, dbl_read, s.len() as int)),
{
    let (i, int_ok) = match int_read {
        Ok(i) => (i, true),
        Err(ParseIntegerError::Underflow) => (i64::MIN, false),
        Err(_) => (i64::MAX, false),
    };
    let dbl_ok = match dbl_read {
        Some(l) => l == s.len(),
        None => false,
    };
    let flags: u32 = (if int_ok {
        1
    } else {
        0
    }) + (if dbl_ok {
        2
    } else {
        0
    });
    Value::Number(Number { r: to_vec(s), i, flags })
}

/// Makes the value of a number's text.
fn alloc_number(s: &[u8]) -> (v: Value)
    ensures
        v.jv() == number_value(s@),
{
    let n = c_len(s);
    proof {
        lemma_nul_pos(s@, 0);
    }
    let t = copy_range(s, 0, n);
    proof {
        assert(t@ =~= c_str(s@));
    }
    number_from_reads(s, parse_integer(t.as_slice()), strtod_len(t.as_slice()))
}

/// Adds a string (a value or an object key).
pub fn handle_string(ctx: &mut Context, s: &[u8]) -> (r: i32)
    requires
        !ctx_refuses(ctx_view(old(ctx)), true),
    ensures
        r == 1,
        ctx_view(final(ctx)) == ctx_add(ctx_view(old(ctx)), JValue::String(s@)).0,
{
    match ctx.add_value(Value::String(to_vec(s))) {
        Ok(_) => 1,
        Err(err) => {
            ctx.record_error(err.as_bytes_w_null());
            0
        },
    }
}

/// Adds a number given as its text.
pub fn handle_number(ctx: &mut Context, s: &[u8]) -> (r: i32)
    requires
        !ctx_refuses(ctx_view(old(ctx)), false),
    ensures
        r == 1,
        ctx_view(final(ctx)) == ctx_add(ctx_view(old(ctx)), number_value(s@)).0,
{
    match ctx.add_value(alloc_number(s)) {
        Ok(_) => 1,
        Err(err) => {
            ctx.record_error(err.as_bytes_w_null());
            0
        },
    }
}

/// Adds `true` (any nonzero `boolean_value`) or `false`.
pub fn handle_boolean(ctx: &mut Context, boolean_value: i32) -> (r: i32)
    requires
        !ctx_refuses(ctx_view(old(ctx)), false),
    ensures
        r == 1,
        ctx_view(final(ctx)) == ctx_add(
            ctx_view(old(ctx)),
            if boolean_value != 0 {
                JValue::True
            } else {
                JValue::False
            },
        ).0,
{
    let v = if boolean_value != 0 {
        Value::True
    } else {
        Value::False
    };
    match ctx.add_value(v) {
        Ok(_) => 1,
        Err(err) => {
            ctx.record_error(err.as_bytes_w_null());
            0
        },
    }
}

/// Adds `null`.
pub fn handle_null(ctx: &mut Context) -> (r: i32)
    requires
        !ctx_refuses(ctx_view(old(ctx)), false),
    ensures
        r == 1,
        ctx_view(final(ctx)) == ctx_add(ctx_view(old(ctx)), JValue::Null).0,
{
    match ctx.add_value(Value::Null) {
        Ok(_) => 1,
        Err(err) => {
            ctx.record_error(err.as_bytes_w_null());
            0
        },
    }
}

/// Starts building an object.
pub fn handle_start_map(ctx: &mut Context) -> (r: i32)
    ensures
        r == 1,
        ctx_view(final(ctx)) == (CtxModel {
            stack: ctx_view(old(ctx)).stack.push(
                Frame { key: None, value: JValue::Object(Seq::empty(), Seq::empty()) },
            ),
            ..ctx_view(old(ctx))
        }),
{
    let v = Value::Object(Object { keys: Vec::new(), values: Vec::new() });
    proof {
        assert(bytes_list(Seq::<Vec<u8>>::empty()) =~= Seq::<Seq<u8>>::empty());
        assert(jv_list(Seq::<Value>::empty()) =~= Seq::<JValue>::empty());
    }
    match ctx.push(v) {
        Ok(_) => 1,
        Err(err) => {
            ctx.record_error(err.as_bytes_w_null());
            0
        },
    }
}

/// Starts building an array.
pub fn handle_start_array(ctx: &mut Context) -> (r: i32)
    ensures
        r == 1,
        ctx_view(final(ctx)) == (CtxModel {
            stack: ctx_view(old(ctx)).stack.push(
                Frame { key: None, value: JValue::Array(Seq::empty()) },
            ),
            ..ctx_view(old(ctx))
        }),
{
    let v = Value::Array(Array { values: Vec::new() });
    proof {
        assert(jv_list(Seq::<Value>::empty()) =~= Seq::<JValue>::empty());
    }
    match ctx.push(v) {
        Ok(_) => 1,
        Err(err) => {
            ctx.record_error(err.as_bytes_w_null());
            0
        },
    }
}

/// Closing the innermost object or array: it is taken off the stack and
/// added to what encloses it; with nothing open the error buffer takes a
/// message and the close fails.
pub open spec fn ctx_close(m: CtxModel) -> (CtxModel, i32) {
    if m.stack.len() == 0 {
        (CtxModel { errbuf: snprintf(m.errbuf, pop_message()), ..m }, 0)
    } else {
        (ctx_add(ctx_popped(m), m.stack.last().value).0, 1)
    }
}

fn close_value(ctx: &mut Context) -> (r: i32)
    requires
        !ctx_close_refuses(ctx_view(old(ctx))),
    ensures
        ctx_view(final(ctx)) == ctx_close(ctx_view(old(ctx))).0,
        r == ctx_close(ctx_view(old(ctx))).1,
{
    let v = match ctx.pop() {
        Ok(v) => v,
        Err(_) => {
            return 0;
        },
    };
    match ctx.add_value(v) {
        Ok(_) => 1,
        Err(err) => {
            ctx.record_error(err.as_bytes_w_null());
            0
        },
    }
}

/// Finishes the innermost object.
pub fn handle_end_map(ctx: &mut Context) -> (r: i32)
    requires
        !ctx_close_refuses(ctx_view(old(ctx))),
    ensures
        ctx_view(final(ctx)) == ctx_close(ctx_view(old(ctx))).0,
        r == ctx_close(ctx_view(old(ctx))).1,
{
    close_value(ctx)
}

/// Finishes the innermost array.
pub fn handle_end_array(ctx: &mut Context) -> (r: i32)
    requires
        !ctx_close_refuses(ctx_view(old(ctx))),
    ensures
        ctx_view(final(ctx)) == ctx_close(ctx_view(old(ctx))).0,
        r == ctx_close(ctx_view(old(ctx))).1,
{
    close_value(ctx)
}

/// Handing a value to the builder: refused (and nothing changes) where it
/// cannot be added, otherwise added.
pub open spec fn value_event(m: CtxModel, v: JValue) -> (CtxModel, CallbackStatus) {
    if ctx_refuses(m, v is String) {
        (m, CallbackStatus::Cancel)
    } else {
        (ctx_add(m, v).0, CallbackStatus::Continue)
    }
}

/// What the builder does with each event of the parser.
pub open spec fn ctx_event(m: CtxModel, ev: EventView) -> (CtxModel, CallbackStatus) {
    match ev {
        EventView::Null => value_event(m, JValue::Null),
        EventView::Boolean(b) => value_event(
            m,
            if b {
                JValue::True
            } else {
                JValue::False
            },
        ),
        EventView::Integer(_) => (m, CallbackStatus::Continue),
        EventView::Double(_) => (m, CallbackStatus::Continue),
        EventView::Number(t) => value_event(m, number_value(t)),
        EventView::String(t) => value_event(m, JValue::String(t)),
        EventView::MapKey(t) => value_event(m, JValue::String(t)),
        EventView::StartMap => (
            CtxModel {
                stack: m.stack.push(
                    Frame { key: None, value: JValue::Object(Seq::empty(), Seq::empty()) },
                ),
                ..m
            },
            CallbackStatus::Continue,
        ),
        EventView::StartArray => (
            CtxModel {
                stack: m.stack.push(Frame { key: None, value: JValue::Array(Seq::empty()) }),
                ..m
            },
            CallbackStatus::Continue,
        ),
        EventView::EndMap => close_event(m),
        EventView::EndArray => close_event(m),
    }
}

/// Closing what is being built: refused (and nothing changes) where it
/// cannot be added to what encloses it.
pub open spec fn close_event(m: CtxModel) -> (CtxModel, CallbackStatus) {
    if ctx_close_refuses(m) {
        (m, CallbackStatus::Cancel)
    } else {
        let c = ctx_close(m);
        (
            c.0,
            if c.1 != 0 {
                CallbackStatus::Continue
            } else {
                CallbackStatus::Cancel
            },
        )
    }
}

fn answer(r: i32) -> (s: CallbackStatus)
    ensures
        s == (if r != 0 {
            CallbackStatus::Continue
        } else {
            CallbackStatus::Cancel
        }),
{
    if r != 0 {
        CallbackStatus::Continue
    } else {
        CallbackStatus::Cancel
    }
}

/// The builder takes numbers as text; where a value cannot be added (which
/// a parser never asks), it cancels.
impl Callbacks for Context {
    type Model = CtxModel;

    open spec fn model(&self) -> CtxModel {
        ctx_view(self)
    }

    open spec fn after(m: CtxModel, ev: EventView) -> (CtxModel, CallbackStatus) {
        ctx_event(m, ev)
    }

    open spec fn takes_number(&self) -> bool {
        true
    }

    open spec fn takes_integer(&self) -> bool {
        false
    }

    open spec fn takes_double(&self) -> bool {
        false
    }

    fn null(&mut self) -> (r: CallbackStatus) {
        if self.refuses(false) {
            return CallbackStatus::Cancel;
        }
        answer(handle_null(self))
    }

    fn boolean(&mut self, val: bool) -> (r: CallbackStatus) {
        if self.refuses(false) {
            return CallbackStatus::Cancel;
        }
        answer(
            handle_boolean(
                self,
                if val {
                    1
                } else {
                    0
                },
            ),
        )
    }

    fn integer(&mut self, val: i64) -> (r: CallbackStatus) {
        CallbackStatus::Continue
    }

    fn double(&mut self, text: &[u8]) -> (r: CallbackStatus) {
        CallbackStatus::Continue
    }

    fn number(&mut self, text: &[u8]) -> (r: CallbackStatus) {
        if self.refuses(false) {
            return CallbackStatus::Cancel;
        }
        answer(handle_number(self, text))
    }

    fn string(&mut self, val: &[u8]) -> (r: CallbackStatus) {
        if self.refuses(true) {
            return CallbackStatus::Cancel;
        }
        answer(handle_string(self, val))
    }

    fn start_map(&mut self) -> (r: CallbackStatus) {
        answer(handle_start_map(self))
    }

    fn map_key(&mut self, key: &[u8]) -> (r: CallbackStatus) {
        if self.refuses(true) {
            return CallbackStatus::Cancel;
        }
        answer(handle_string(self, key))
    }

    fn end_map(&mut self) -> (r: CallbackStatus) {
        if self.close_refuses() {
            return CallbackStatus::Cancel;
        }
        answer(handle_end_map(self))
    }

    fn start_array(&mut self) -> (r: CallbackStatus) {
        answer(handle_start_array(self))
    }

    fn end_array(&mut self) -> (r: CallbackStatus) {
        if self.close_refuses() {
            return CallbackStatus::Cancel;
        }
        answer(handle_end_array(self))
    }

    fn has_number(&self) -> (b: bool) {
        true
    }

    fn has_integer(&self) -> (b: bool) {
        false
    }

    fn has_double(&self) -> (b: bool) {
        false
    }
}

/// Opening an object or array and closing it at once adds an empty
/// object or array to what encloses it (or makes it the finished value),
/// where a value may be added.
pub proof fn lemma_ctx_open_close(m: CtxModel)
    requires
        !ctx_refuses(m, false),
    ensures
        close_event(ctx_event(m, EventView::StartMap).0) == value_event(
            m,
            JValue::Object(Seq::empty(), Seq::empty()),
        ),
        close_event(ctx_event(m, EventView::StartArray).0) == value_event(
            m,
            JValue::Array(Seq::empty()),
        ),
{
    let o = ctx_event(m, EventView::StartMap).0;
    assert(ctx_popped(o).stack =~= m.stack);
    assert(ctx_popped(o) == m);
    let a = ctx_event(m, EventView::StartArray).0;
    assert(ctx_popped(a).stack =~= m.stack);
    assert(ctx_popped(a) == m);
}

/// The number callbacks a tree builder takes.
pub open spec fn tree_caps() -> Caps {
    Caps { number: true, integer: false, double: false }
}

/// The parser a tree parse starts from: comments allowed, strings checked.
pub open spec fn tree_start() -> Model {
    Model {
        stack: seq![ParseState::Start],
        error: None,
        lex: LexModel { held: None, error: LexError::NoError, comments: true, validate: true },
        consumed: 0,
        events: Seq::empty(),
    }
}

/// The error report a failed tree parse prints into the error buffer.
pub open spec fn tree_error_text(m: Model, text: Seq<u8>) -> Seq<u8> {
    error_head(m.stack.last(), m.error, m.lex.error) + error_context(text, m.consumed)
        + error_arrow()
}

/// A tree parse of `input` (read up to its first NUL byte) with an error
/// buffer of `size` bytes: the tree, or nothing, and the error buffer.
pub open spec fn tree_parse_spec(input: Seq<u8>, size: nat) -> (Option<JValue>, Seq<u8>) {
    let text = c_str(input);
    let c0 = CtxModel { stack: Seq::empty(), root: None, errbuf: Seq::new(size, |i: int| 0u8) };
    let r1 = model_run::<Context>(tree_start(), c0, text, 0, 1, tree_caps());
    let r2 = model_run::<Context>(
        Model { consumed: 0, ..r1.0 },
        r1.1,
        seq![0x20u8],
        0,
        1,
        tree_caps(),
    );
    let fin = finish(r2.0, r2.2, 1);
    if fin.1 != Status::Success {
        (None, snprintf(r2.1.errbuf, tree_error_text(fin.0, text)))
    } else {
        (r2.1.root, r2.1.errbuf)
    }
}

/// Parses a JSON text (up to its first NUL byte), comments allowed, into a
/// tree. The error buffer keeps its length: it is cleared, and on failure
/// takes the error report, cut to fit.
#[verifier::rlimit(80)]
pub fn yajl_tree_parse(input: &[u8], error_buffer: &mut Vec<u8>) -> (r: Option<Value>)
    ensures
        ({
            let t = tree_parse_spec(input@, old(error_buffer)@.len());
            &&& final(error_buffer)@ == t.1
            &&& r is None <==> t.0 is None
            &&& r matches Some(v) ==> t.0 == Some(v.jv())
        }),
{
    let n = c_len(input);
    proof {
        lemma_nul_pos(input@, 0);
    }
    let text = copy_range(input, 0, n);
    proof {
        assert(text@ =~= c_str(input@));
    }
    let ctx = Context::new(error_buffer.len());
    let ghost size = error_buffer@.len();
    let ghost c0 = CtxModel {
        stack: Seq::empty(),
        root: None,
        errbuf: Seq::new(size, |i: int| 0u8),
    };
    let mut parser = RParser::with_callbacks(ctx, ParserOptions::default());
    parser.config(ParserOption::AllowComments, true);
    proof {
        assert(0u32 | 1u32 == 1u32) by (bit_vector);
        assert(1u32 & 1u32 != 0u32) by (bit_vector);
        assert(1u32 & 2u32 == 0u32) by (bit_vector);
        assert(1u32 | 0u32 == 1u32) by (bit_vector);
        assert(parser.spec_flags() == 1);
        assert(parser.spec_options().spec_flags() == 0);
        assert(parser.active_flags() == 1);
        assert(parser.prepared() == tree_start());
        assert(parser.spec_caps() == tree_caps());
        assert(parser.spec_callbacks().model() == c0);
    }
    let ghost r1 = model_run::<Context>(tree_start(), c0, text@, 0, 1, tree_caps());
    let _first = parser.parse(text.as_slice());
    proof {
        assert(parser.model() == r1.0);
        assert(parser.spec_callbacks().model() == r1.1);
        assert(parser.prepared() == (Model { consumed: 0, ..r1.0 }));
    }
    let ghost r2 = model_run::<Context>(
        Model { consumed: 0, ..r1.0 },
        r1.1,
        seq![0x20u8],
        0,
        1,
        tree_caps(),
    );
    let ghost fin = finish(r2.0, r2.2, 1);
    let status = parser.complete_parse();
    proof {
        assert(parser.model() == fin.0);
        assert(status == fin.1);
        assert(parser.spec_callbacks().model() == r2.1);
        assert(tree_parse_spec(input@, size) == (if fin.1 != Status::Success {
            (None, snprintf(r2.1.errbuf, tree_error_text(fin.0, text@)))
        } else {
            (r2.1.root, r2.1.errbuf)
        }));
    }
    if status != Status::Success {
        let msg = parser.get_error(true, text.as_slice());
        let ctx = parser.into_callbacks();
        let mut buf = ctx.errbuf;
        print_into(&mut buf, msg.as_slice());
        *error_buffer = buf;
        return None;
    }
    let ctx = parser.into_callbacks();
    *error_buffer = ctx.errbuf;
    ctx.root
}

} // verus!
