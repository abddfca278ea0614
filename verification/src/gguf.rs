//! Reader for GGUF model files, versions 2 and 3: header, metadata, tensor
//! table, and the placement of the tensor data.
//!
//! Floating-point metadata is kept as its bit pattern.

use crate::le_bytes::{
    get_u16, get_u32, get_u64, to_signed_16, to_signed_32, to_signed_64, to_signed_8,
};
use crate::text::string_from_utf8;
use vstd::hash_map::StringHashMap;
use vstd::prelude::*;

verus! {

/// Why a file cannot be read, or a tensor not be found in it.
#[derive(Debug, Clone, Copy, PartialEq, Eq)]
pub enum GgufError {
    /// The file ends inside an item.
    Truncated,
    /// A string is not valid UTF-8.
    BadUtf8,
    /// A metadata value has a type that is not known.
    UnknownValueType(u32),
    /// The file does not start with the magic bytes.
    NotGguf,
    /// The format version is not supported.
    UnsupportedVersion(u32),
    /// A tensor has a type whose size is not known.
    UnsupportedTensorType(u32),
    /// A tensor's elements do not fill whole blocks.
    PartialBlock,
    /// A size does not fit the machine's numbers.
    TooLarge,
    /// The data alignment is zero.
    ZeroAlignment,
    /// There is no tensor of that name.
    NoSuchTensor,
    /// A tensor's data reaches beyond the end of the file.
    OutOfBounds,
}

/// A metadata value. The floating-point variants hold bit patterns, and are equal
/// where the numbers are.
#[derive(Debug)]
pub enum Value {
    U8(u8),
    I8(i8),
    U16(u16),
    I16(i16),
    U32(u32),
    I32(i32),
    F32(u32),
    Bool(bool),
    Str(String),
    Arr(Vec<Value>),
    U64(u64),
    I64(i64),
    F64(u64),
}

/// What a metadata value says.
pub ghost enum Meta {
    U8(u8),
    I8(i8),
    U16(u16),
    I16(i16),
    U32(u32),
    I32(i32),
    F32(u32),
    Bool(bool),
    Str(Seq<char>),
    Arr(Seq<Meta>),
    U64(u64),
    I64(i64),
    F64(u64),
}

/// Two bit patterns of 32 bits stand for equal numbers: neither stands for no number,
/// and they are the same or both a zero.
pub open spec fn equal_32(a: u32, b: u32) -> bool {
    &&& a as int % 0x8000_0000 <= 0x7F80_0000
    &&& b as int % 0x8000_0000 <= 0x7F80_0000
    &&& a == b || (a as int % 0x8000_0000 == 0 && b as int % 0x8000_0000 == 0)
}

/// Two bit patterns of 64 bits stand for equal numbers: neither stands for no number,
/// and they are the same or both a zero.
pub open spec fn equal_64(a: u64, b: u64) -> bool {
    &&& a as int % 0x8000_0000_0000_0000 <= 0x7FF0_0000_0000_0000
    &&& b as int % 0x8000_0000_0000_0000 <= 0x7FF0_0000_0000_0000
    &&& a == b || (a as int % 0x8000_0000_0000_0000 == 0 && b as int % 0x8000_0000_0000_0000 == 0)
}

impl Meta {
    /// The two are of the same type and say the same. Floating-point numbers are
    /// compared as numbers: the two zeros are equal, and what is no number is equal to
    /// nothing.
    pub open spec fn equals(self, other: Meta) -> bool
        decreases self,
    {
        match (self, other) {
            (Meta::F32(a), Meta::F32(b)) => equal_32(a, b),
            (Meta::F64(a), Meta::F64(b)) => equal_64(a, b),
            (Meta::Arr(a), Meta::Arr(b)) => {
                &&& a.len() == b.len()
                &&& forall|i: int| 0 <= i < a.len() ==> (#[trigger] a[i]).equals(b[i])
            },
            _ => self == other,
        }
    }

    /// The value as a natural number, where it is one.
    pub open spec fn as_u64(self) -> Option<u64> {
        match self {
            Meta::U8(v) => Some(v as u64),
            Meta::U16(v) => Some(v as u64),
            Meta::U32(v) => Some(v as u64),
            Meta::U64(v) => Some(v),
            Meta::I8(v) => if v >= 0 {
                Some(v as u64)
            } else {
                None
            },
            Meta::I16(v) => if v >= 0 {
                Some(v as u64)
            } else {
                None
            },
            Meta::I32(v) => if v >= 0 {
                Some(v as u64)
            } else {
                None
            },
            Meta::I64(v) => if v >= 0 {
                Some(v as u64)
            } else {
                None
            },
            _ => None,
        }
    }
}

impl Value {
    /// What the value says.
    pub open spec fn meta(self) -> Meta
        decreases self,
    {
        match self {
            Value::U8(v) => Meta::U8(v),
            Value::I8(v) => Meta::I8(v),
            Value::U16(v) => Meta::U16(v),
            Value::I16(v) => Meta::I16(v),
            Value::U32(v) => Meta::U32(v),
            Value::I32(v) => Meta::I32(v),
            Value::F32(v) => Meta::F32(v),
            Value::Bool(v) => Meta::Bool(v),
            Value::Str(s) => Meta::Str(s@),
            Value::Arr(v) => Meta::Arr(
                Seq::new(
                    v@.len(),
                    |i: int|
                        if 0 <= i < v@.len() {
                            v@[i].meta()
                        } else {
                            arbitrary()
                        },
                ),
            ),
            Value::U64(v) => Meta::U64(v),
            Value::I64(v) => Meta::I64(v),
            Value::F64(v) => Meta::F64(v),
        }
    }

    /// The value as a natural number, where it is one.
    pub fn as_u64(&self) -> (n: Option<u64>)
        ensures
            n == self.meta().as_u64(),
    {
        match self {
            Value::U8(v) => Some(*v as u64),
            Value::U16(v) => Some(*v as u64),
            Value::U32(v) => Some(*v as u64),
            Value::U64(v) => Some(*v),
            Value::I8(v) => if *v >= 0 {
                Some(*v as u64)
            } else {
                None
            },
            Value::I16(v) => if *v >= 0 {
                Some(*v as u64)
            } else {
                None
            },
            Value::I32(v) => if *v >= 0 {
                Some(*v as u64)
            } else {
                None
            },
            Value::I64(v) => if *v >= 0 {
                Some(*v as u64)
            } else {
                None
            },
            _ => None,
        }
    }

    /// The value as a string, where it is one.
    pub fn as_str(&self) -> (s: Option<&str>)
        ensures
            s is Some <==> self.meta() is Str,
            s is Some ==> s->0@ == self.meta()->Str_0,
    {
        match self {
            Value::Str(s) => Some(s.as_str()),
            _ => None,
        }
    }
}

/// The two values are equal.
fn equal_values(x: &Value, y: &Value) -> (r: bool)
    ensures
        r == x.meta().equals(y.meta()),
    decreases x,
{
    match (x, y) {
        (Value::U8(a), Value::U8(b)) => *a == *b,
        (Value::I8(a), Value::I8(b)) => *a == *b,
        (Value::U16(a), Value::U16(b)) => *a == *b,
        (Value::I16(a), Value::I16(b)) => *a == *b,
        (Value::U32(a), Value::U32(b)) => *a == *b,
        (Value::I32(a), Value::I32(b)) => *a == *b,
        (Value::F32(a), Value::F32(b)) => {
            let (m, n): (u32, u32) = (*a % 0x8000_0000, *b % 0x8000_0000);
            m <= 0x7F80_0000 && n <= 0x7F80_0000 && (*a == *b || (m == 0 && n == 0))
        },
        (Value::Bool(a), Value::Bool(b)) => *a == *b,
        (Value::Str(a), Value::Str(b)) => *a == *b,
        (Value::Arr(a), Value::Arr(b)) => {
            if a.len() != b.len() {
                return false;
            }
            let mut i: usize = 0;
            while i < a.len()
                invariant
                    i <= a@.len() == b@.len(),
                    x == Value::Arr(*a),
                    y == Value::Arr(*b),
                    forall|j: int| 0 <= j < i ==> (#[trigger] a@[j]).meta().equals(b@[j].meta()),
                decreases a@.len() - i,
            {
                assert(x.meta()->Arr_0[i as int] == a@[i as int].meta());
                if !equal_values(&a[i], &b[i]) {
                    return false;
                }
                i = i + 1;
            }
            true
        },
        (Value::U64(a), Value::U64(b)) => *a == *b,
        (Value::I64(a), Value::I64(b)) => *a == *b,
        (Value::F64(a), Value::F64(b)) => {
            let (m, n): (u64, u64) = (*a % 0x8000_0000_0000_0000, *b % 0x8000_0000_0000_0000);
            m <= 0x7FF0_0000_0000_0000 && n <= 0x7FF0_0000_0000_0000 && (*a == *b || (m == 0 && n
                == 0))
        },
        _ => false,
    }
}

impl PartialEq for Value {
    fn eq(&self, other: &Value) -> (r: bool) {
        equal_values(self, other)
    }
}

impl vstd::std_specs::cmp::PartialEqSpecImpl for Value {
    open spec fn obeys_eq_spec() -> bool {
        true
    }

    open spec fn eq_spec(&self, other: &Value) -> bool {
        self.meta().equals(other.meta())
    }
}

/// A copy of the value.
fn copy_of(x: &Value) -> (r: Value)
    ensures
        r.meta() == x.meta(),
    decreases x,
{
    match x {
        Value::U8(v) => Value::U8(*v),
        Value::I8(v) => Value::I8(*v),
        Value::U16(v) => Value::U16(*v),
        Value::I16(v) => Value::I16(*v),
        Value::U32(v) => Value::U32(*v),
        Value::I32(v) => Value::I32(*v),
        Value::F32(v) => Value::F32(*v),
        Value::Bool(v) => Value::Bool(*v),
        Value::Str(v) => Value::Str(v.clone()),
        Value::Arr(items) => {
            let mut all: Vec<Value> = Vec::new();
            let mut i: usize = 0;
            while i < items.len()
                invariant
                    i == all@.len() <= items@.len(),
                    x == Value::Arr(*items),
                    forall|j: int| 0 <= j < i ==> (#[trigger] all@[j]).meta() == items@[j].meta(),
                decreases items@.len() - i,
            {
                assert(x.meta()->Arr_0[i as int] == items@[i as int].meta());
                all.push(copy_of(&items[i]));
                i = i + 1;
            }
            let r = Value::Arr(all);
            assert(r.meta()->Arr_0 =~= x.meta()->Arr_0);
            r
        },
        Value::U64(v) => Value::U64(*v),
        Value::I64(v) => Value::I64(*v),
        Value::F64(v) => Value::F64(*v),
    }
}

impl Clone for Value {
    fn clone(&self) -> (r: Value)
        ensures
            r.meta() == self.meta(),
    {
        copy_of(self)
    }
}

/// How many bytes follow position `pos`.
pub open spec fn room(b: Seq<u8>, pos: nat) -> nat {
    if pos <= b.len() {
        (b.len() - pos) as nat
    } else {
        0
    }
}

/// What reading an item yields: the item and the position behind it.
pub type Parsed<T> = Result<(T, nat), GgufError>;

/// Reads a 32-bit number.
pub open spec fn parse_u32(b: Seq<u8>, pos: nat) -> Parsed<u32> {
    if room(b, pos) < 4 {
        Err(GgufError::Truncated)
    } else {
        Ok((crate::le_bytes::le_u32(b, pos as int), pos + 4))
    }
}

/// Reads a 64-bit number.
pub open spec fn parse_u64(b: Seq<u8>, pos: nat) -> Parsed<u64> {
    if room(b, pos) < 8 {
        Err(GgufError::Truncated)
    } else {
        Ok((crate::le_bytes::le_u64(b, pos as int), pos + 8))
    }
}

/// Reads a string: a 64-bit length, then that many bytes of UTF-8.
pub open spec fn parse_string(b: Seq<u8>, pos: nat) -> Parsed<Seq<char>> {
    match parse_u64(b, pos) {
        Err(e) => Err(e),
        Ok((n, at)) => if room(b, at) < n {
            Err(GgufError::Truncated)
        } else {
            let body = b.subrange(at as int, at + n);
            if vstd::utf8::valid_utf8(body) {
                Ok((vstd::utf8::decode_utf8(body), at + n as nat))
            } else {
                Err(GgufError::BadUtf8)
            }
        },
    }
}

/// The number of bytes that a value of fixed size takes.
pub open spec fn fixed_size(ty: u32) -> Option<nat> {
    if ty == 0 || ty == 1 || ty == 7 {
        Some(1)
    } else if ty == 2 || ty == 3 {
        Some(2)
    } else if ty == 4 || ty == 5 || ty == 6 {
        Some(4)
    } else if ty == 10 || ty == 11 || ty == 12 {
        Some(8)
    } else {
        None
    }
}

/// The value of fixed size at `pos`.
pub open spec fn fixed_value(b: Seq<u8>, pos: int, ty: u32) -> Meta {
    if ty == 0 {
        Meta::U8(b[pos])
    } else if ty == 1 {
        Meta::I8(crate::le_bytes::signed_8(b[pos]))
    } else if ty == 2 {
        Meta::U16(crate::le_bytes::le_u16(b, pos))
    } else if ty == 3 {
        Meta::I16(crate::le_bytes::signed_16(crate::le_bytes::le_u16(b, pos)))
    } else if ty == 4 {
        Meta::U32(crate::le_bytes::le_u32(b, pos))
    } else if ty == 5 {
        Meta::I32(crate::le_bytes::signed_32(crate::le_bytes::le_u32(b, pos)))
    } else if ty == 6 {
        Meta::F32(crate::le_bytes::le_u32(b, pos))
    } else if ty == 7 {
        Meta::Bool(b[pos] != 0)
    } else if ty == 10 {
        Meta::U64(crate::le_bytes::le_u64(b, pos))
    } else if ty == 11 {
        Meta::I64(crate::le_bytes::signed_64(crate::le_bytes::le_u64(b, pos)))
    } else {
        Meta::F64(crate::le_bytes::le_u64(b, pos))
    }
}

/// Reads a value of type `ty` and says how many bytes it takes: a value of
/// fixed size, a string (8) or an array (9), which is an element type, a
/// 64-bit count and the elements.
pub open spec fn parse_value(b: Seq<u8>, pos: nat, ty: u32) -> Result<(Meta, nat), GgufError>
    decreases room(b, pos), 0nat,
{
    if let Some(n) = fixed_size(ty) {
        if room(b, pos) < n {
            Err(GgufError::Truncated)
        } else {
            Ok((fixed_value(b, pos as int, ty), n))
        }
    } else if ty == 8 {
        match parse_string(b, pos) {
            Err(e) => Err(e),
            Ok((s, end)) => Ok((Meta::Str(s), (end - pos) as nat)),
        }
    } else if ty == 9 {
        if room(b, pos) < 12 {
            Err(GgufError::Truncated)
        } else {
            let element = crate::le_bytes::le_u32(b, pos as int);
            let n = crate::le_bytes::le_u64(b, pos as int + 4);
            match parse_values(b, pos + 12, element, n as nat, seq![]) {
                Err(e) => Err(e),
                Ok((items, end)) => Ok((Meta::Arr(items), (end - pos) as nat)),
            }
        }
    } else {
        Err(GgufError::UnknownValueType(ty))
    }
}

/// Reads `n` values of type `ty` one after the other, behind those in `done`.
pub open spec fn parse_values(b: Seq<u8>, pos: nat, ty: u32, n: nat, done: Seq<Meta>) -> Parsed<
    Seq<Meta>,
>
    decreases room(b, pos), n + 1,
{
    if n == 0 {
        Ok((done, pos))
    } else {
        match parse_value(b, pos, ty) {
            Err(e) => Err(e),
            Ok((v, size)) => parse_values(b, pos + size, ty, (n - 1) as nat, done.push(v)),
        }
    }
}

proof fn lemma_parse_value_in_range(b: Seq<u8>, pos: nat, ty: u32)
    requires
        pos <= b.len(),
    ensures
        parse_value(b, pos, ty) is Ok ==> pos + parse_value(b, pos, ty)->Ok_0.1 <= b.len(),
    decreases room(b, pos), 0nat,
{
    if ty == 9 && room(b, pos) >= 12 {
        let element = crate::le_bytes::le_u32(b, pos as int);
        let n = crate::le_bytes::le_u64(b, pos as int + 4);
        lemma_parse_values_in_range(b, pos + 12, element, n as nat, seq![]);
    }
}

proof fn lemma_parse_values_in_range(b: Seq<u8>, pos: nat, ty: u32, n: nat, done: Seq<Meta>)
    requires
        pos <= b.len(),
    ensures
        parse_values(b, pos, ty, n, done) is Ok ==> pos <= parse_values(
            b,
            pos,
            ty,
            n,
            done,
        )->Ok_0.1 <= b.len(),
    decreases room(b, pos), n + 1,
{
    if n > 0 {
        lemma_parse_value_in_range(b, pos, ty);
        if let Ok((v, size)) = parse_value(b, pos, ty) {
            lemma_parse_values_in_range(b, pos + size, ty, (n - 1) as nat, done.push(v));
        }
    }
}

/// A position inside the bytes of a file.
struct Reader<'a> {
    buf: &'a [u8],
    pos: usize,
}

impl<'a> Reader<'a> {
    spec fn wf(&self) -> bool {
        self.pos <= self.buf@.len()
    }

    /// Takes the next `n` bytes.
    fn take(&mut self, n: u64) -> (r: Result<&'a [u8], GgufError>)
        requires
            old(self).wf(),
        ensures
            final(self).wf(),
            final(self).buf == old(self).buf,
            if room(old(self).buf@, old(self).pos as nat) < n {
                r == Err::<&'a [u8], GgufError>(GgufError::Truncated) && final(self).pos == old(self).pos
            } else {
                &&& r is Ok
                &&& r->Ok_0@ == old(self).buf@.subrange(
                    old(self).pos as int,
                    old(self).pos + n as int,
                )
                &&& final(self).pos == old(self).pos + n
            },
    {
        let left: usize = self.buf.len() - self.pos;
        if (left as u64) < n {
            return Err(GgufError::Truncated);
        }
        let buf = self.buf;
        let start: usize = self.pos;
        let s = &buf[start..start + n as usize];
        self.pos = start + n as usize;
        Ok(s)
    }

    fn u32(&mut self) -> (r: Result<u32, GgufError>)
        requires
            old(self).wf(),
        ensures
            final(self).wf(),
            final(self).buf == old(self).buf,
            match parse_u32(old(self).buf@, old(self).pos as nat) {
                Ok((v, end)) => r == Ok::<u32, GgufError>(v) && final(self).pos == end,
                Err(e) => r == Err::<u32, GgufError>(e),
            },
    {
        let at: usize = self.pos;
        match self.take(4) {
            Ok(_) => Ok(get_u32(self.buf, at)),
            Err(e) => Err(e),
        }
    }

    fn u64(&mut self) -> (r: Result<u64, GgufError>)
        requires
            old(self).wf(),
        ensures
            final(self).wf(),
            final(self).buf == old(self).buf,
            match parse_u64(old(self).buf@, old(self).pos as nat) {
                Ok((v, end)) => r == Ok::<u64, GgufError>(v) && final(self).pos == end,
                Err(e) => r == Err::<u64, GgufError>(e),
            },
    {
        let at: usize = self.pos;
        match self.take(8) {
            Ok(_) => Ok(get_u64(self.buf, at)),
            Err(e) => Err(e),
        }
    }

    fn string(&mut self) -> (r: Result<String, GgufError>)
        requires
            old(self).wf(),
        ensures
            final(self).wf(),
            final(self).buf == old(self).buf,
            match parse_string(old(self).buf@, old(self).pos as nat) {
                Ok((s, end)) => r is Ok && r->Ok_0@ == s && final(self).pos == end,
                Err(e) => r is Err && r->Err_0 == e,
            },
    {
        let n = match self.u64() {
            Ok(n) => n,
            Err(e) => {
                return Err(e);
            },
        };
        let body = match self.take(n) {
            Ok(body) => body,
            Err(e) => {
                return Err(e);
            },
        };
        match string_from_utf8(vstd::slice::slice_to_vec(body)) {
            Some(s) => Ok(s),
            None => Err(GgufError::BadUtf8),
        }
    }

    /// Reads a value of type `ty`.
    fn value(&mut self, ty: u32) -> (r: Result<Value, GgufError>)
        requires
            old(self).wf(),
        ensures
            final(self).wf(),
            final(self).buf == old(self).buf,
            match parse_value(old(self).buf@, old(self).pos as nat, ty) {
                Ok((v, size)) => r is Ok && r->Ok_0.meta() == v && final(self).pos == old(self).pos
                    + size,
                Err(e) => r is Err && r->Err_0 == e,
            },
        decreases old(self).buf@.len() - old(self).pos,
    {
        let ghost b = self.buf@;
        let at: usize = self.pos;
        proof {
            lemma_parse_value_in_range(b, at as nat, ty);
        }
        if ty == 0 || ty == 1 || ty == 7 {
            let s = match self.take(1) {
                Ok(s) => s,
                Err(e) => {
                    return Err(e);
                },
            };
            let v: u8 = s[0];
            if ty == 0 {
                Ok(Value::U8(v))
            } else if ty == 1 {
                Ok(Value::I8(to_signed_8(v)))
            } else {
                Ok(Value::Bool(v != 0))
            }
        } else if ty == 2 || ty == 3 {
            match self.take(2) {
                Ok(_) => {},
                Err(e) => {
                    return Err(e);
                },
            }
            let v = get_u16(self.buf, at);
            if ty == 2 {
                Ok(Value::U16(v))
            } else {
                Ok(Value::I16(to_signed_16(v)))
            }
        } else if ty == 4 || ty == 5 || ty == 6 {
            let v = match self.u32() {
                Ok(v) => v,
                Err(e) => {
                    return Err(e);
                },
            };
            if ty == 4 {
                Ok(Value::U32(v))
            } else if ty == 5 {
                Ok(Value::I32(to_signed_32(v)))
            } else {
                Ok(Value::F32(v))
            }
        } else if ty == 10 || ty == 11 || ty == 12 {
            let v = match self.u64() {
                Ok(v) => v,
                Err(e) => {
                    return Err(e);
                },
            };
            if ty == 10 {
                Ok(Value::U64(v))
            } else if ty == 11 {
                Ok(Value::I64(to_signed_64(v)))
            } else {
                Ok(Value::F64(v))
            }
        } else if ty == 8 {
            match self.string() {
                Ok(s) => Ok(Value::Str(s)),
                Err(e) => Err(e),
            }
        } else if ty == 9 {
            let element = match self.u32() {
                Ok(v) => v,
                Err(e) => {
                    return Err(e);
                },
            };
            let n = match self.u64() {
                Ok(v) => v,
                Err(e) => {
                    return Err(e);
                },
            };
            let mut items: Vec<Value> = Vec::new();
            let mut i: u64 = 0;
            let ghost goal = parse_values(b, (at + 12) as nat, element, n as nat, seq![]);
            assert(metas(items@) =~= seq![]);
            while i < n
                invariant
                    i <= n,
                    self.wf(),
                    self.buf@ == b,
                    self.buf == old(self).buf,
                    at == old(self).pos,
                    b == old(self).buf@,
                    at + 12 <= self.pos,
                    goal is Err ==> parse_value(b, at as nat, ty) == Err::<(Meta, nat), GgufError>(
                        goal->Err_0,
                    ),
                    parse_values(b, self.pos as nat, element, (n - i) as nat, metas(items@)) == goal,
                decreases n - i,
            {
                let ghost done = items@;
                match self.value(element) {
                    Ok(v) => {
                        items.push(v);
                        assert(metas(items@) =~= metas(done).push(v.meta()));
                    },
                    Err(e) => {
                        return Err(e);
                    },
                }
                i = i + 1;
            }
            assert(goal == Ok::<(Seq<Meta>, nat), GgufError>((metas(items@), self.pos as nat)));
            let v = Value::Arr(items);
            proof {
                array_says_its_elements(items);
            }
            Ok(v)
        } else {
            Err(GgufError::UnknownValueType(ty))
        }
    }
}

/// What the values of a list say.
pub open spec fn metas(items: Seq<Value>) -> Seq<Meta> {
    Seq::new(items.len(), |i: int| items[i].meta())
}

/// An array value says what its elements say.
pub proof fn array_says_its_elements(items: Vec<Value>)
    ensures
        Value::Arr(items).meta() == Meta::Arr(metas(items@)),
{
    assert(Value::Arr(items).meta()->Arr_0 =~= metas(items@));
}

/// Elements and bytes of one block of a tensor type.
pub open spec fn layout(ggml_type: u32) -> Option<(u64, u64)> {
    if ggml_type == 0 {
        Some((1, 4))
    } else if ggml_type == 1 || ggml_type == 30 {
        Some((1, 2))
    } else if ggml_type == 2 {
        Some((32, 18))
    } else if ggml_type == 3 {
        Some((32, 20))
    } else if ggml_type == 6 {
        Some((32, 22))
    } else if ggml_type == 7 {
        Some((32, 24))
    } else if ggml_type == 8 {
        Some((32, 34))
    } else if ggml_type == 10 {
        Some((256, 84))
    } else if ggml_type == 11 {
        Some((256, 110))
    } else if ggml_type == 12 {
        Some((256, 144))
    } else if ggml_type == 13 {
        Some((256, 176))
    } else if ggml_type == 14 {
        Some((256, 210))
    } else if ggml_type == 16 {
        Some((256, 66))
    } else {
        None
    }
}

/// Elements and bytes of one block of a tensor type. The types are, in order:
/// single and half precision; q4_0, q4_1, q5_0, q5_1, q8_0; q2_k to q6_k;
/// iq2_xxs; and last the brain float.
pub fn block_layout(ggml_type: u32) -> (r: Result<(u64, u64), GgufError>)
    ensures
        r == match layout(ggml_type) {
            Some(p) => Ok::<(u64, u64), GgufError>(p),
            None => Err(GgufError::UnsupportedTensorType(ggml_type)),
        },
{
    match ggml_type {
        0 => Ok((1, 4)),
        1 => Ok((1, 2)),
        2 => Ok((32, 18)),
        3 => Ok((32, 20)),
        6 => Ok((32, 22)),
        7 => Ok((32, 24)),
        8 => Ok((32, 34)),
        10 => Ok((256, 84)),
        11 => Ok((256, 110)),
        12 => Ok((256, 144)),
        13 => Ok((256, 176)),
        14 => Ok((256, 210)),
        16 => Ok((256, 66)),
        30 => Ok((1, 2)),
        _ => Err(GgufError::UnsupportedTensorType(ggml_type)),
    }
}

/// Shape, type and place of a tensor.
#[derive(Debug, Clone)]
pub struct TensorInfo {
    /// The dimensions; the first is the contiguous one.
    pub dims: Vec<u64>,
    pub ggml_type: u32,
    /// Byte offset within the data section.
    pub offset: u64,
    pub nbytes: u64,
}

/// What a tensor's entry says.
#[verifier::ext_equal]
pub ghost struct TensorView {
    pub dims: Seq<u64>,
    pub ggml_type: u32,
    pub offset: u64,
    pub nbytes: u64,
}

impl View for TensorInfo {
    type V = TensorView;

    open spec fn view(&self) -> TensorView {
        TensorView {
            dims: self.dims@,
            ggml_type: self.ggml_type,
            offset: self.offset,
            nbytes: self.nbytes,
        }
    }
}

/// The number of elements of a tensor, where neither it nor the product of the
/// leading dimensions is too large.
pub open spec fn elements(dims: Seq<u64>) -> Option<u64>
    decreases dims.len(),
{
    if dims.len() == 0 {
        Some(1)
    } else {
        match elements(dims.drop_last()) {
            Some(n) if n * dims.last() <= u64::MAX => Some((n * dims.last()) as u64),
            _ => None,
        }
    }
}

/// The number of bytes of a tensor: whole blocks only.
pub open spec fn tensor_bytes(dims: Seq<u64>, ggml_type: u32) -> Result<u64, GgufError> {
    match elements(dims) {
        None => Err(GgufError::TooLarge),
        Some(n) => match layout(ggml_type) {
            None => Err(GgufError::UnsupportedTensorType(ggml_type)),
            Some((items, bytes)) => if n % items != 0 {
                Err(GgufError::PartialBlock)
            } else if n / items * bytes > u64::MAX {
                Err(GgufError::TooLarge)
            } else {
                Ok((n / items * bytes) as u64)
            },
        },
    }
}

/// Reads `n` dimensions, behind those in `done`.
pub open spec fn parse_dims(b: Seq<u8>, pos: nat, n: nat, done: Seq<u64>) -> Parsed<Seq<u64>>
    decreases n,
{
    if n == 0 {
        Ok((done, pos))
    } else {
        match parse_u64(b, pos) {
            Err(e) => Err(e),
            Ok((d, at)) => parse_dims(b, at, (n - 1) as nat, done.push(d)),
        }
    }
}

/// Reads the entry of a tensor: its name, its dimensions, its type and its
/// offset.
pub open spec fn parse_tensor(b: Seq<u8>, pos: nat) -> Parsed<(Seq<char>, TensorView)> {
    match parse_string(b, pos) {
        Err(e) => Err(e),
        Ok((name, p1)) => match parse_u32(b, p1) {
            Err(e) => Err(e),
            Ok((n_dims, p2)) => match parse_dims(b, p2, n_dims as nat, seq![]) {
                Err(e) => Err(e),
                Ok((dims, p3)) => match parse_u32(b, p3) {
                    Err(e) => Err(e),
                    Ok((ggml_type, p4)) => match parse_u64(b, p4) {
                        Err(e) => Err(e),
                        Ok((offset, p5)) => match tensor_bytes(dims, ggml_type) {
                            Err(e) => Err(e),
                            Ok(nbytes) => Ok(
                                ((name, TensorView { dims, ggml_type, offset, nbytes }), p5),
                            ),
                        },
                    },
                },
            },
        },
    }
}

/// Reads `n` tensor entries. Of two entries with one name the later one counts.
pub open spec fn parse_tensors(
    b: Seq<u8>,
    pos: nat,
    n: nat,
    done: Map<Seq<char>, TensorView>,
) -> Parsed<Map<Seq<char>, TensorView>>
    decreases n,
{
    if n == 0 {
        Ok((done, pos))
    } else {
        match parse_tensor(b, pos) {
            Err(e) => Err(e),
            Ok(((name, t), at)) => parse_tensors(b, at, (n - 1) as nat, done.insert(name, t)),
        }
    }
}

/// Reads a metadata entry: its key, its type and its value.
pub open spec fn parse_entry(b: Seq<u8>, pos: nat) -> Parsed<(Seq<char>, Meta)> {
    match parse_string(b, pos) {
        Err(e) => Err(e),
        Ok((key, p1)) => match parse_u32(b, p1) {
            Err(e) => Err(e),
            Ok((ty, p2)) => match parse_value(b, p2, ty) {
                Err(e) => Err(e),
                Ok((v, size)) => Ok(((key, v), p2 + size)),
            },
        },
    }
}

/// Reads `n` metadata entries. Of two entries with one key the later one counts.
pub open spec fn parse_entries(
    b: Seq<u8>,
    pos: nat,
    n: nat,
    done: Map<Seq<char>, Meta>,
) -> Parsed<Map<Seq<char>, Meta>>
    decreases n,
{
    if n == 0 {
        Ok((done, pos))
    } else {
        match parse_entry(b, pos) {
            Err(e) => Err(e),
            Ok(((key, v), at)) => parse_entries(b, at, (n - 1) as nat, done.insert(key, v)),
        }
    }
}

/// What a file says.
#[verifier::ext_equal]
pub ghost struct GgufView {
    pub bytes: Seq<u8>,
    pub meta: Map<Seq<char>, Meta>,
    pub tensors: Map<Seq<char>, TensorView>,
    pub data_start: usize,
}

/// The least multiple of `unit` that is no less than `n`.
pub open spec fn round_up(n: nat, unit: nat) -> nat
    recommends
        unit > 0,
{
    if n % unit == 0 {
        n
    } else {
        (n - n % unit + unit) as nat
    }
}

/// The data alignment that the metadata asks for, 32 by default.
pub open spec fn alignment(meta: Map<Seq<char>, Meta>) -> u64 {
    if meta.contains_key("general.alignment"@) {
        match meta["general.alignment"@].as_u64() {
            Some(v) => v,
            None => 32,
        }
    } else {
        32
    }
}

/// Where the data section starts: at the first aligned position behind the
/// tensor table, which ends at `end`.
pub open spec fn data_position(meta: Map<Seq<char>, Meta>, end: nat) -> Result<usize, GgufError> {
    if alignment(meta) == 0 {
        Err(GgufError::ZeroAlignment)
    } else if round_up(end, alignment(meta) as nat) > usize::MAX {
        Err(GgufError::TooLarge)
    } else {
        Ok(round_up(end, alignment(meta) as nat) as usize)
    }
}

/// Reads the metadata and the tensor table of a file behind its header.
pub open spec fn parse_tables(b: Seq<u8>, n_tensors: u64, n_kv: u64) -> Result<
    GgufView,
    GgufError,
> {
    match parse_entries(b, 24, n_kv as nat, Map::empty()) {
        Err(e) => Err(e),
        Ok((meta, p1)) => match parse_tensors(b, p1, n_tensors as nat, Map::empty()) {
            Err(e) => Err(e),
            Ok((tensors, p2)) => match data_position(meta, p2) {
                Err(e) => Err(e),
                Ok(data_start) => Ok(GgufView { bytes: b, meta, tensors, data_start }),
            },
        },
    }
}

/// Reads a whole file: the magic bytes `GGUF`, the version, the number of
/// tensors, the number of metadata entries, and then both tables.
pub open spec fn parse_file(b: Seq<u8>) -> Result<GgufView, GgufError> {
    if b.len() < 4 {
        Err(GgufError::Truncated)
    } else if b.subrange(0, 4) != seq![71u8, 71u8, 85u8, 70u8] {
        Err(GgufError::NotGguf)
    } else if b.len() < 8 {
        Err(GgufError::Truncated)
    } else if !(2 <= crate::le_bytes::le_u32(b, 4) <= 3) {
        Err(GgufError::UnsupportedVersion(crate::le_bytes::le_u32(b, 4)))
    } else if b.len() < 24 {
        Err(GgufError::Truncated)
    } else {
        parse_tables(b, crate::le_bytes::le_u64(b, 8), crate::le_bytes::le_u64(b, 16))
    }
}

/// What a map of metadata values says.
pub open spec fn meta_view(m: Map<Seq<char>, Value>) -> Map<Seq<char>, Meta> {
    m.map_values(|v: Value| v.meta())
}

/// What a map of tensor entries says.
pub open spec fn tensor_view(m: Map<Seq<char>, TensorInfo>) -> Map<Seq<char>, TensorView> {
    m.map_values(|t: TensorInfo| t@)
}

proof fn lemma_meta_view_insert(m: Map<Seq<char>, Value>, key: Seq<char>, v: Value)
    ensures
        meta_view(m.insert(key, v)) == meta_view(m).insert(key, v.meta()),
{
    assert(meta_view(m.insert(key, v)) =~= meta_view(m).insert(key, v.meta()));
}

proof fn lemma_tensor_view_insert(m: Map<Seq<char>, TensorInfo>, key: Seq<char>, t: TensorInfo)
    ensures
        tensor_view(m.insert(key, t)) == tensor_view(m).insert(key, t@),
{
    assert(tensor_view(m.insert(key, t)) =~= tensor_view(m).insert(key, t@));
}

impl<'a> Reader<'a> {
    /// Reads a metadata entry.
    fn entry(&mut self) -> (r: Result<(String, Value), GgufError>)
        requires
            old(self).wf(),
        ensures
            final(self).wf(),
            final(self).buf == old(self).buf,
            match parse_entry(old(self).buf@, old(self).pos as nat) {
                Ok(((key, v), end)) => r is Ok && r->Ok_0.0@ == key && r->Ok_0.1.meta() == v
                    && final(self).pos == end,
                Err(e) => r is Err && r->Err_0 == e,
            },
    {
        let key = match self.string() {
            Ok(s) => s,
            Err(e) => {
                return Err(e);
            },
        };
        let ty = match self.u32() {
            Ok(v) => v,
            Err(e) => {
                return Err(e);
            },
        };
        match self.value(ty) {
            Ok(v) => Ok((key, v)),
            Err(e) => Err(e),
        }
    }

    /// Reads `n` dimensions.
    fn dims(&mut self, n: u32) -> (r: Result<Vec<u64>, GgufError>)
        requires
            old(self).wf(),
        ensures
            final(self).wf(),
            final(self).buf == old(self).buf,
            match parse_dims(old(self).buf@, old(self).pos as nat, n as nat, seq![]) {
                Ok((dims, end)) => r is Ok && r->Ok_0@ == dims && final(self).pos == end,
                Err(e) => r is Err && r->Err_0 == e,
            },
    {
        let ghost b = self.buf@;
        let mut dims: Vec<u64> = Vec::new();
        let mut i: u32 = 0;
        while i < n
            invariant
                i <= n,
                self.wf(),
                b == old(self).buf@,
                self.buf == old(self).buf,
                parse_dims(b, self.pos as nat, (n - i) as nat, dims@) == parse_dims(
                    b,
                    old(self).pos as nat,
                    n as nat,
                    seq![],
                ),
            decreases n - i,
        {
            match self.u64() {
                Ok(d) => {
                    dims.push(d);
                },
                Err(e) => {
                    return Err(e);
                },
            }
            i = i + 1;
        }
        Ok(dims)
    }

    /// Reads the entry of a tensor.
    fn tensor(&mut self) -> (r: Result<(String, TensorInfo), GgufError>)
        requires
            old(self).wf(),
        ensures
            final(self).wf(),
            final(self).buf == old(self).buf,
            match parse_tensor(old(self).buf@, old(self).pos as nat) {
                Ok(((name, t), end)) => r is Ok && r->Ok_0.0@ == name && r->Ok_0.1@ == t
                    && final(self).pos == end,
                Err(e) => r is Err && r->Err_0 == e,
            },
    {
        let name = match self.string() {
            Ok(s) => s,
            Err(e) => {
                return Err(e);
            },
        };
        let n_dims = match self.u32() {
            Ok(v) => v,
            Err(e) => {
                return Err(e);
            },
        };
        let dims = match self.dims(n_dims) {
            Ok(v) => v,
            Err(e) => {
                return Err(e);
            },
        };
        let ggml_type = match self.u32() {
            Ok(v) => v,
            Err(e) => {
                return Err(e);
            },
        };
        let offset = match self.u64() {
            Ok(v) => v,
            Err(e) => {
                return Err(e);
            },
        };
        match size_of_tensor(&dims, ggml_type) {
            Ok(nbytes) => Ok((name, TensorInfo { dims, ggml_type, offset, nbytes })),
            Err(e) => Err(e),
        }
    }

    /// Reads `n` metadata entries.
    fn entries(&mut self, n: u64) -> (r: Result<StringHashMap<Value>, GgufError>)
        requires
            old(self).wf(),
        ensures
            final(self).wf(),
            final(self).buf == old(self).buf,
            match parse_entries(old(self).buf@, old(self).pos as nat, n as nat, Map::empty()) {
                Ok((meta, end)) => r is Ok && meta_view(r->Ok_0@) == meta && final(self).pos == end,
                Err(e) => r is Err && r->Err_0 == e,
            },
    {
        let ghost b = self.buf@;
        let mut meta: StringHashMap<Value> = StringHashMap::new();
        let mut i: u64 = 0;
        assert(meta_view(meta@) =~= Map::empty());
        while i < n
            invariant
                i <= n,
                self.wf(),
                b == old(self).buf@,
                self.buf == old(self).buf,
                parse_entries(b, self.pos as nat, (n - i) as nat, meta_view(meta@))
                    == parse_entries(b, old(self).pos as nat, n as nat, Map::empty()),
            decreases n - i,
        {
            match self.entry() {
                Ok((key, v)) => {
                    proof {
                        lemma_meta_view_insert(meta@, key@, v);
                    }
                    meta.insert(key, v);
                },
                Err(e) => {
                    return Err(e);
                },
            }
            i = i + 1;
        }
        Ok(meta)
    }

    /// Reads `n` tensor entries.
    fn tensors(&mut self, n: u64) -> (r: Result<StringHashMap<TensorInfo>, GgufError>)
        requires
            old(self).wf(),
        ensures
            final(self).wf(),
            final(self).buf == old(self).buf,
            match parse_tensors(old(self).buf@, old(self).pos as nat, n as nat, Map::empty()) {
                Ok((tensors, end)) => r is Ok && tensor_view(r->Ok_0@) == tensors
                    && final(self).pos == end,
                Err(e) => r is Err && r->Err_0 == e,
            },
    {
        let ghost b = self.buf@;
        let mut tensors: StringHashMap<TensorInfo> = StringHashMap::new();
        let mut i: u64 = 0;
        assert(tensor_view(tensors@) =~= Map::empty());
        while i < n
            invariant
                i <= n,
                self.wf(),
                b == old(self).buf@,
                self.buf == old(self).buf,
                parse_tensors(b, self.pos as nat, (n - i) as nat, tensor_view(tensors@))
                    == parse_tensors(b, old(self).pos as nat, n as nat, Map::empty()),
            decreases n - i,
        {
            match self.tensor() {
                Ok((name, t)) => {
                    proof {
                        lemma_tensor_view_insert(tensors@, name@, t);
                    }
                    tensors.insert(name, t);
                },
                Err(e) => {
                    return Err(e);
                },
            }
            i = i + 1;
        }
        Ok(tensors)
    }
}

/// The number of elements that the dimensions span.
fn count_elements(dims: &Vec<u64>) -> (r: Option<u64>)
    ensures
        r == elements(dims@),
{
    let mut n: u64 = 1;
    let mut i: usize = 0;
    assert(dims@.take(0) =~= seq![]);
    while i < dims.len()
        invariant
            i <= dims@.len(),
            elements(dims@.take(i as int)) == Some(n),
        decreases dims@.len() - i,
    {
        proof {
            let next = dims@.take(i + 1);
            assert(next.drop_last() =~= dims@.take(i as int));
            if n * dims@[i as int] > u64::MAX {
                lemma_elements_overflow(dims@, i + 1);
            }
        }
        match n.checked_mul(dims[i]) {
            Some(m) => {
                n = m;
            },
            None => {
                return None;
            },
        }
        i = i + 1;
    }
    assert(dims@.take(i as int) =~= dims@);
    Some(n)
}

proof fn lemma_elements_overflow(dims: Seq<u64>, k: int)
    requires
        0 <= k <= dims.len(),
        elements(dims.take(k)) is None,
    ensures
        elements(dims) is None,
    decreases dims.len() - k,
{
    if k < dims.len() {
        assert(dims.take(k + 1).drop_last() =~= dims.take(k));
        lemma_elements_overflow(dims, k + 1);
    } else {
        assert(dims.take(k) =~= dims);
    }
}

/// The number of bytes of a tensor.
fn size_of_tensor(dims: &Vec<u64>, ggml_type: u32) -> (r: Result<u64, GgufError>)
    ensures
        r == tensor_bytes(dims@, ggml_type),
{
    let n = match count_elements(dims) {
        Some(n) => n,
        None => {
            return Err(GgufError::TooLarge);
        },
    };
    match block_layout(ggml_type) {
        Err(e) => Err(e),
        Ok((items, bytes)) => if n % items != 0 {
            Err(GgufError::PartialBlock)
        } else {
            match (n / items).checked_mul(bytes) {
                Some(size) => Ok(size),
                None => Err(GgufError::TooLarge),
            }
        },
    }
}

/// The first multiple of `unit` from `n` on, where it fits.
fn align_up(n: usize, unit: u64) -> (r: Option<usize>)
    requires
        unit > 0,
    ensures
        r == if round_up(n as nat, unit as nat) > usize::MAX {
            None
        } else {
            Some(round_up(n as nat, unit as nat) as usize)
        },
{
    let rest: u64 = (n as u64) % unit;
    if rest == 0 {
        return Some(n);
    }
    proof {
        vstd::arithmetic::div_mod::lemma_mod_decreases(n as nat, unit as nat);
    }
    match ((n as u64) - rest).checked_add(unit) {
        Some(v) => if v <= usize::MAX as u64 {
            Some(v as usize)
        } else {
            None
        },
        None => None,
    }
}

/// A model file: its bytes, and where in them everything is.
pub struct Gguf<'a> {
    pub bytes: &'a [u8],
    pub meta: StringHashMap<Value>,
    pub tensors: StringHashMap<TensorInfo>,
    /// Where the data section starts.
    pub data_start: usize,
}

impl<'a> View for Gguf<'a> {
    type V = GgufView;

    open spec fn view(&self) -> GgufView {
        GgufView {
            bytes: self.bytes@,
            meta: meta_view(self.meta@),
            tensors: tensor_view(self.tensors@),
            data_start: self.data_start,
        }
    }
}

impl GgufView {
    /// Where the data of a tensor lies in the file.
    pub open spec fn data_range(self, name: Seq<char>) -> Result<(int, int), GgufError> {
        if !self.tensors.contains_key(name) {
            Err(GgufError::NoSuchTensor)
        } else {
            let t = self.tensors[name];
            let start = self.data_start + t.offset;
            if start + t.nbytes > self.bytes.len() {
                Err(GgufError::OutOfBounds)
            } else {
                Ok((start, start + t.nbytes))
            }
        }
    }
}

impl<'a> Gguf<'a> {
    /// Reads the tables of a model file.
    pub fn open(bytes: &'a [u8]) -> (r: Result<Gguf<'a>, GgufError>)
        ensures
            match parse_file(bytes@) {
                Ok(g) => r is Ok && r->Ok_0@ == g,
                Err(e) => r is Err && r->Err_0 == e,
            },
    {
        let mut r = Reader { buf: bytes, pos: 0 };
        let ghost b = bytes@;
        let magic = match r.take(4) {
            Ok(m) => m,
            Err(e) => {
                return Err(e);
            },
        };
        assert(magic@ == b.subrange(0, 4));
        assert((magic@ =~= seq![71u8, 71u8, 85u8, 70u8]) <==> (magic@[0] == 71 && magic@[1] == 71
            && magic@[2] == 85 && magic@[3] == 70));
        if !(magic[0] == 71 && magic[1] == 71 && magic[2] == 85 && magic[3] == 70) {
            return Err(GgufError::NotGguf);
        }
        let version = match r.u32() {
            Ok(v) => v,
            Err(e) => {
                return Err(e);
            },
        };
        if version < 2 || version > 3 {
            return Err(GgufError::UnsupportedVersion(version));
        }
        let n_tensors = match r.u64() {
            Ok(v) => v,
            Err(e) => {
                return Err(e);
            },
        };
        let n_kv = match r.u64() {
            Ok(v) => v,
            Err(e) => {
                return Err(e);
            },
        };
        let meta = match r.entries(n_kv) {
            Ok(m) => m,
            Err(e) => {
                return Err(e);
            },
        };
        let tensors = match r.tensors(n_tensors) {
            Ok(t) => t,
            Err(e) => {
                return Err(e);
            },
        };
        let unit: u64 = match meta.get("general.alignment") {
            Some(v) => match v.as_u64() {
                Some(unit) => unit,
                None => 32,
            },
            None => 32,
        };
        assert(unit == alignment(meta_view(meta@)));
        if unit == 0 {
            return Err(GgufError::ZeroAlignment);
        }
        match align_up(r.pos, unit) {
            Some(data_start) => Ok(Gguf { bytes, meta, tensors, data_start }),
            None => Err(GgufError::TooLarge),
        }
    }

    /// The entry of a tensor.
    pub fn tensor(&self, name: &str) -> (r: Result<&TensorInfo, GgufError>)
        ensures
            if self@.tensors.contains_key(name@) {
                r is Ok && r->Ok_0@ == self@.tensors[name@]
            } else {
                r is Err && r->Err_0 == GgufError::NoSuchTensor
            },
    {
        match self.tensors.get(name) {
            Some(t) => Ok(t),
            None => Err(GgufError::NoSuchTensor),
        }
    }

    /// The data of a tensor.
    pub fn tensor_data(&self, name: &str) -> (r: Result<&'a [u8], GgufError>)
        ensures
            match self@.data_range(name@) {
                Ok((start, end)) => r is Ok && r->Ok_0@ == self@.bytes.subrange(start, end),
                Err(e) => r is Err && r->Err_0 == e,
            },
    {
        let t = match self.tensor(name) {
            Ok(t) => t,
            Err(e) => {
                return Err(e);
            },
        };
        let len: u64 = self.bytes.len() as u64;
        let start: u64 = match (self.data_start as u64).checked_add(t.offset) {
            Some(v) => v,
            None => {
                return Err(GgufError::OutOfBounds);
            },
        };
        let end: u64 = match start.checked_add(t.nbytes) {
            Some(v) => v,
            None => {
                return Err(GgufError::OutOfBounds);
            },
        };
        if end > len {
            return Err(GgufError::OutOfBounds);
        }
        let bytes = self.bytes;
        Ok(&bytes[start as usize..end as usize])
    }
}

/// The data section of a file that can be read starts at a multiple of the
/// alignment that its metadata asks for.
pub proof fn data_section_is_aligned(b: Seq<u8>)
    requires
        parse_file(b) is Ok,
    ensures
        alignment(parse_file(b)->Ok_0.meta) > 0,
        parse_file(b)->Ok_0.data_start as int % alignment(parse_file(b)->Ok_0.meta) as int == 0,
{
    let meta = parse_entries(b, 24, crate::le_bytes::le_u64(b, 16) as nat, Map::empty())->Ok_0;
    let n = parse_tensors(
        b,
        meta.1,
        crate::le_bytes::le_u64(b, 8) as nat,
        Map::empty(),
    )->Ok_0.1 as int;
    let unit = alignment(meta.0) as int;
    assert(parse_file(b)->Ok_0.meta == meta.0);
    vstd::arithmetic::div_mod::lemma_fundamental_div_mod(n, unit);
    assert(n % unit != 0 ==> n - n % unit + unit == unit * (n / unit + 1)) by (nonlinear_arith)
        requires
            n == unit * (n / unit) + n % unit,
    ;
    vstd::arithmetic::div_mod::lemma_mod_multiples_basic(n / unit + 1, unit);
    assert(unit * (n / unit + 1) == (n / unit + 1) * unit) by (nonlinear_arith);
}

/// A tensor of known type that fills whole blocks takes one block's bytes for
/// every block's worth of elements.
pub proof fn tensor_fills_whole_blocks(dims: Seq<u64>, ggml_type: u32)
    requires
        tensor_bytes(dims, ggml_type) is Ok,
    ensures
        elements(dims) is Some,
        layout(ggml_type) is Some,
        ({
            let (items, bytes) = layout(ggml_type)->0;
            tensor_bytes(dims, ggml_type)->Ok_0 * items == elements(dims)->0 * bytes
        }),
{
    let n = elements(dims)->0 as int;
    let block = layout(ggml_type)->0;
    let items = block.0 as int;
    let bytes = block.1 as int;
    vstd::arithmetic::div_mod::lemma_fundamental_div_mod(n, items);
    assert(((n / items) * bytes) * items == n * bytes) by (nonlinear_arith)
        requires
            n == items * (n / items),
    ;
}

} // verus!
