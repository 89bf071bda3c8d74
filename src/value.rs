//! Self-describing typed field values: their type tags, their wire encoding, and the codec
//! between the two.
//!
//! A value is written as its payload alone; its type travels beside it as a one-byte tag.
//! Integers are little-endian of their fixed width, a float is its 32-bit IEEE-754 bit
//! pattern, a string or hex string ends with one NUL byte, and an array is written as its
//! element subtype tag, its element count (four bytes) and its elements.

use vstd::prelude::*;
use vstd::slice::slice_subrange;

verus! {

/// The type of a field value, as named by its one-byte tag.
#[derive(Clone, Copy, Debug, PartialEq, Eq, Structural, Hash)]
pub enum Type {
    /// A printable character (`A`).
    Character,
    /// An 8-bit integer (`c`).
    Int8,
    /// An 8-bit unsigned integer (`C`).
    UInt8,
    /// A 16-bit integer (`s`).
    Int16,
    /// A 16-bit unsigned integer (`S`).
    UInt16,
    /// A 32-bit integer (`i`).
    Int32,
    /// A 32-bit unsigned integer (`I`).
    UInt32,
    /// A single-precision float (`f`).
    Float,
    /// A string (`Z`).
    String,
    /// A hex string (`H`).
    Hex,
    /// An array (`B`).
    Array,
}

/// The element type of an array value.
#[derive(Clone, Copy, Debug, PartialEq, Eq, Structural, Hash)]
pub enum Subtype {
    /// 8-bit integers (`c`).
    Int8,
    /// 8-bit unsigned integers (`C`).
    UInt8,
    /// 16-bit integers (`s`).
    Int16,
    /// 16-bit unsigned integers (`S`).
    UInt16,
    /// 32-bit integers (`i`).
    Int32,
    /// 32-bit unsigned integers (`I`).
    UInt32,
    /// Single-precision floats (`f`).
    Float,
}

/// The tag byte of a type.
pub open spec fn type_code(t: Type) -> u8 {
    match t {
        Type::Character => 0x41,
        Type::Int8 => 0x63,
        Type::UInt8 => 0x43,
        Type::Int16 => 0x73,
        Type::UInt16 => 0x53,
        Type::Int32 => 0x69,
        Type::UInt32 => 0x49,
        Type::Float => 0x66,
        Type::String => 0x5a,
        Type::Hex => 0x48,
        Type::Array => 0x42,
    }
}

/// The tag byte of an array subtype.
pub open spec fn subtype_code(t: Subtype) -> u8 {
    match t {
        Subtype::Int8 => 0x63,
        Subtype::UInt8 => 0x43,
        Subtype::Int16 => 0x73,
        Subtype::UInt16 => 0x53,
        Subtype::Int32 => 0x69,
        Subtype::UInt32 => 0x49,
        Subtype::Float => 0x66,
    }
}

/// The number of bytes of one element of an array of the subtype.
pub open spec fn width(t: Subtype) -> nat {
    match t {
        Subtype::Int8 | Subtype::UInt8 => 1,
        Subtype::Int16 | Subtype::UInt16 => 2,
        _ => 4,
    }
}

impl Type {
    /// The type named by a tag byte, if any.
    pub fn from_u8(b: u8) -> (r: Option<Type>)
        ensures
            r matches Some(t) ==> type_code(t) == b,
            r is None ==> forall|t: Type| type_code(t) != b,
    {
        match b {
            0x41 /* A */ => Some(Type::Character),
            0x63 /* c */ => Some(Type::Int8),
            0x43 /* C */ => Some(Type::UInt8),
            0x73 /* s */ => Some(Type::Int16),
            0x53 /* S */ => Some(Type::UInt16),
            0x69 /* i */ => Some(Type::Int32),
            0x49 /* I */ => Some(Type::UInt32),
            0x66 /* f */ => Some(Type::Float),
            0x5a /* Z */ => Some(Type::String),
            0x48 /* H */ => Some(Type::Hex),
            0x42 /* B */ => Some(Type::Array),
            _ => None,
        }
    }

    /// The tag byte of the type.
    pub fn to_u8(self) -> (r: u8)
        ensures
            r == type_code(self),
    {
        match self {
            Type::Character => 0x41 /* A */,
            Type::Int8 => 0x63 /* c */,
            Type::UInt8 => 0x43 /* C */,
            Type::Int16 => 0x73 /* s */,
            Type::UInt16 => 0x53 /* S */,
            Type::Int32 => 0x69 /* i */,
            Type::UInt32 => 0x49 /* I */,
            Type::Float => 0x66 /* f */,
            Type::String => 0x5a /* Z */,
            Type::Hex => 0x48 /* H */,
            Type::Array => 0x42 /* B */,
        }
    }
}

impl Subtype {
    /// The subtype named by a tag byte, if any.
    pub fn from_u8(b: u8) -> (r: Option<Subtype>)
        ensures
            r matches Some(t) ==> subtype_code(t) == b,
            r is None ==> forall|t: Subtype| subtype_code(t) != b,
    {
        match b {
            0x63 /* c */ => Some(Subtype::Int8),
            0x43 /* C */ => Some(Subtype::UInt8),
            0x73 /* s */ => Some(Subtype::Int16),
            0x53 /* S */ => Some(Subtype::UInt16),
            0x69 /* i */ => Some(Subtype::Int32),
            0x49 /* I */ => Some(Subtype::UInt32),
            0x66 /* f */ => Some(Subtype::Float),
            _ => None,
        }
    }

    /// The tag byte of the subtype.
    pub fn to_u8(self) -> (r: u8)
        ensures
            r == subtype_code(self),
    {
        match self {
            Subtype::Int8 => 0x63 /* c */,
            Subtype::UInt8 => 0x43 /* C */,
            Subtype::Int16 => 0x73 /* s */,
            Subtype::UInt16 => 0x53 /* S */,
            Subtype::Int32 => 0x69 /* i */,
            Subtype::UInt32 => 0x49 /* I */,
            Subtype::Float => 0x66 /* f */,
        }
    }

    /// The number of bytes of one element.
    pub fn width(self) -> (r: usize)
        ensures
            r == width(self),
    {
        match self {
            Subtype::Int8 | Subtype::UInt8 => 1,
            Subtype::Int16 | Subtype::UInt16 => 2,
            _ => 4,
        }
    }
}

// ---------------------------------------------------------------------------------------------
// Little-endian integers

/// Byte `k` (from the least significant) of a non-negative integer.
pub open spec fn byte_at(x: int, k: int) -> u8 {
    (if k == 0 {
        x % 0x100
    } else if k == 1 {
        (x / 0x100) % 0x100
    } else if k == 2 {
        (x / 0x1_0000) % 0x100
    } else {
        (x / 0x100_0000) % 0x100
    }) as u8
}

/// The `w` low bytes of `x`, least significant first.
pub open spec fn le_bytes(x: int, w: nat) -> Seq<u8> {
    Seq::new(w, |k: int| byte_at(x, k))
}

/// The value of one, two or four little-endian bytes.
pub open spec fn le_value(s: Seq<u8>) -> int {
    if s.len() == 1 {
        s[0] as int
    } else if s.len() == 2 {
        s[0] + 0x100 * s[1]
    } else {
        s[0] + 0x100 * s[1] + 0x1_0000 * s[2] + 0x100_0000 * s[3]
    }
}

/// The number of distinct values of `w` bytes.
pub open spec fn span(w: nat) -> int {
    if w == 1 {
        0x100
    } else if w == 2 {
        0x1_0000
    } else {
        0x1_0000_0000
    }
}

/// Writing a value in `w` bytes and reading them back gives the value.
pub proof fn lemma_le_value_of_bytes(x: int, w: nat)
    requires
        w == 1 || w == 2 || w == 4,
        0 <= x < span(w),
    ensures
        le_value(le_bytes(x, w)) == x,
{
    let s = le_bytes(x, w);
    assert(s[0] == x % 0x100);
    if w >= 2 {
        assert(s[1] == (x / 0x100) % 0x100);
    }
    if w == 4 {
        assert(s[2] == (x / 0x1_0000) % 0x100);
        assert(s[3] == (x / 0x100_0000) % 0x100);
        assert((x / 0x100) / 0x100 == x / 0x1_0000) by {
            vstd::arithmetic::div_mod::lemma_div_denominator(x, 0x100, 0x100);
        }
        assert((x / 0x1_0000) / 0x100 == x / 0x100_0000) by {
            vstd::arithmetic::div_mod::lemma_div_denominator(x, 0x1_0000, 0x100);
        }
    }
}

/// Reading `w` bytes and writing the value back gives the bytes.
pub proof fn lemma_le_bytes_of_value(s: Seq<u8>)
    requires
        s.len() == 1 || s.len() == 2 || s.len() == 4,
    ensures
        le_bytes(le_value(s), s.len()) == s,
        0 <= le_value(s) < span(s.len()),
{
    let x = le_value(s);
    let t = le_bytes(x, s.len());
    if s.len() == 4 {
        assert(x / 0x100 == s[1] + 0x100 * s[2] + 0x1_0000 * s[3]);
        assert(x / 0x1_0000 == s[2] + 0x100 * s[3]);
        assert(x / 0x100_0000 == s[3] as int);
    }
    assert(t =~= s);
}

// ---------------------------------------------------------------------------------------------
// Values and their model

/// The unsigned bit pattern of an 8-bit integer.
pub open spec fn raw_i8(x: i8) -> int {
    if x < 0 {
        x + 0x100
    } else {
        x as int
    }
}

/// The unsigned bit pattern of a 16-bit integer.
pub open spec fn raw_i16(x: i16) -> int {
    if x < 0 {
        x + 0x1_0000
    } else {
        x as int
    }
}

/// The unsigned bit pattern of a 32-bit integer.
pub open spec fn raw_i32(x: i32) -> int {
    if x < 0 {
        x + 0x1_0000_0000
    } else {
        x as int
    }
}

/// The elements of an array value.
#[derive(Clone, Debug, PartialEq, Eq)]
pub enum Array {
    /// 8-bit integers.
    Int8(Vec<i8>),
    /// 8-bit unsigned integers.
    UInt8(Vec<u8>),
    /// 16-bit integers.
    Int16(Vec<i16>),
    /// 16-bit unsigned integers.
    UInt16(Vec<u16>),
    /// 32-bit integers.
    Int32(Vec<i32>),
    /// 32-bit unsigned integers.
    UInt32(Vec<u32>),
    /// Single-precision floats, each held as its IEEE-754 bit pattern.
    Float(Vec<u32>),
}

/// A field value. Strings and hex strings are held as their bytes; a float is held as its
/// IEEE-754 bit pattern.
#[derive(Clone, Debug, PartialEq, Eq)]
pub enum Value {
    /// A character, as its byte.
    Character(u8),
    /// An 8-bit integer.
    Int8(i8),
    /// An 8-bit unsigned integer.
    UInt8(u8),
    /// A 16-bit integer.
    Int16(i16),
    /// A 16-bit unsigned integer.
    UInt16(u16),
    /// A 32-bit integer.
    Int32(i32),
    /// A 32-bit unsigned integer.
    UInt32(u32),
    /// A single-precision float, as its IEEE-754 bit pattern.
    Float(u32),
    /// A string, without its terminator.
    String(Vec<u8>),
    /// A hex string, without its terminator.
    Hex(Vec<u8>),
    /// An array.
    Array(Array),
}

/// The mathematical content of an [`Array`].
pub enum ArrayView {
    Int8(Seq<i8>),
    UInt8(Seq<u8>),
    Int16(Seq<i16>),
    UInt16(Seq<u16>),
    Int32(Seq<i32>),
    UInt32(Seq<u32>),
    Float(Seq<u32>),
}

/// The mathematical content of a [`Value`].
pub enum ValueView {
    Character(u8),
    Int8(i8),
    UInt8(u8),
    Int16(i16),
    UInt16(u16),
    Int32(i32),
    UInt32(u32),
    Float(u32),
    String(Seq<u8>),
    Hex(Seq<u8>),
    Array(ArrayView),
}

impl View for Array {
    type V = ArrayView;

    open spec fn view(&self) -> ArrayView {
        match self {
            Array::Int8(a) => ArrayView::Int8(a@),
            Array::UInt8(a) => ArrayView::UInt8(a@),
            Array::Int16(a) => ArrayView::Int16(a@),
            Array::UInt16(a) => ArrayView::UInt16(a@),
            Array::Int32(a) => ArrayView::Int32(a@),
            Array::UInt32(a) => ArrayView::UInt32(a@),
            Array::Float(a) => ArrayView::Float(a@),
        }
    }
}

impl View for Value {
    type V = ValueView;

    open spec fn view(&self) -> ValueView {
        match self {
            Value::Character(c) => ValueView::Character(*c),
            Value::Int8(n) => ValueView::Int8(*n),
            Value::UInt8(n) => ValueView::UInt8(*n),
            Value::Int16(n) => ValueView::Int16(*n),
            Value::UInt16(n) => ValueView::UInt16(*n),
            Value::Int32(n) => ValueView::Int32(*n),
            Value::UInt32(n) => ValueView::UInt32(*n),
            Value::Float(n) => ValueView::Float(*n),
            Value::String(s) => ValueView::String(s@),
            Value::Hex(s) => ValueView::Hex(s@),
            Value::Array(a) => ValueView::Array(a@),
        }
    }
}

impl ArrayView {
    /// The element subtype.
    pub open spec fn subtype(self) -> Subtype {
        match self {
            ArrayView::Int8(_) => Subtype::Int8,
            ArrayView::UInt8(_) => Subtype::UInt8,
            ArrayView::Int16(_) => Subtype::Int16,
            ArrayView::UInt16(_) => Subtype::UInt16,
            ArrayView::Int32(_) => Subtype::Int32,
            ArrayView::UInt32(_) => Subtype::UInt32,
            ArrayView::Float(_) => Subtype::Float,
        }
    }

    /// The unsigned bit patterns of the elements, in order.
    pub open spec fn raw(self) -> Seq<int> {
        match self {
            ArrayView::Int8(a) => Seq::new(a.len(), |i: int| raw_i8(a[i])),
            ArrayView::UInt8(a) => Seq::new(a.len(), |i: int| a[i] as int),
            ArrayView::Int16(a) => Seq::new(a.len(), |i: int| raw_i16(a[i])),
            ArrayView::UInt16(a) => Seq::new(a.len(), |i: int| a[i] as int),
            ArrayView::Int32(a) => Seq::new(a.len(), |i: int| raw_i32(a[i])),
            ArrayView::UInt32(a) => Seq::new(a.len(), |i: int| a[i] as int),
            ArrayView::Float(a) => Seq::new(a.len(), |i: int| a[i] as int),
        }
    }
}

impl ValueView {
    /// The type of the value.
    pub open spec fn ty(self) -> Type {
        match self {
            ValueView::Character(_) => Type::Character,
            ValueView::Int8(_) => Type::Int8,
            ValueView::UInt8(_) => Type::UInt8,
            ValueView::Int16(_) => Type::Int16,
            ValueView::UInt16(_) => Type::UInt16,
            ValueView::Int32(_) => Type::Int32,
            ValueView::UInt32(_) => Type::UInt32,
            ValueView::Float(_) => Type::Float,
            ValueView::String(_) => Type::String,
            ValueView::Hex(_) => Type::Hex,
            ValueView::Array(_) => Type::Array,
        }
    }

    /// The value fits its wire format: an array has fewer than 2^32 elements.
    pub open spec fn is_encodable(self) -> bool {
        match self {
            ValueView::Array(a) => a.raw().len() < 0x1_0000_0000,
            _ => true,
        }
    }

    /// The value is encodable and reads back as itself: a string or hex string holds no NUL.
    pub open spec fn wf(self) -> bool {
        &&& self.is_encodable()
        &&& match self {
            ValueView::String(s) | ValueView::Hex(s) => !s.contains(0u8),
            _ => true,
        }
    }
}

/// The integer a value holds, if it is an integer of any width.
pub open spec fn int_of(v: ValueView) -> Option<int> {
    match v {
        ValueView::Int8(n) => Some(n as int),
        ValueView::UInt8(n) => Some(n as int),
        ValueView::Int16(n) => Some(n as int),
        ValueView::UInt16(n) => Some(n as int),
        ValueView::Int32(n) => Some(n as int),
        ValueView::UInt32(n) => Some(n as int),
        _ => None,
    }
}

/// The integer variant of smallest width that holds `n`: unsigned types for non-negative
/// values, signed ones for negative values.
pub open spec fn smallest_int(n: int) -> ValueView {
    if n >= 0 {
        if n <= u8::MAX {
            ValueView::UInt8(n as u8)
        } else if n <= u16::MAX {
            ValueView::UInt16(n as u16)
        } else {
            ValueView::UInt32(n as u32)
        }
    } else if n >= i8::MIN {
        ValueView::Int8(n as i8)
    } else if n >= i16::MIN {
        ValueView::Int16(n as i16)
    } else {
        ValueView::Int32(n as i32)
    }
}

impl Value {
    /// The type of the value.
    pub fn ty(&self) -> (r: Type)
        ensures
            r == self@.ty(),
    {
        match self {
            Value::Character(_) => Type::Character,
            Value::Int8(_) => Type::Int8,
            Value::UInt8(_) => Type::UInt8,
            Value::Int16(_) => Type::Int16,
            Value::UInt16(_) => Type::UInt16,
            Value::Int32(_) => Type::Int32,
            Value::UInt32(_) => Type::UInt32,
            Value::Float(_) => Type::Float,
            Value::String(_) => Type::String,
            Value::Hex(_) => Type::Hex,
            Value::Array(_) => Type::Array,
        }
    }

    /// The element subtype, for an array.
    pub fn subtype(&self) -> (r: Option<Subtype>)
        ensures
            r == (match self@ {
                ValueView::Array(a) => Some(a.subtype()),
                _ => None::<Subtype>,
            }),
    {
        match self {
            Value::Array(Array::Int8(_)) => Some(Subtype::Int8),
            Value::Array(Array::UInt8(_)) => Some(Subtype::UInt8),
            Value::Array(Array::Int16(_)) => Some(Subtype::Int16),
            Value::Array(Array::UInt16(_)) => Some(Subtype::UInt16),
            Value::Array(Array::Int32(_)) => Some(Subtype::Int32),
            Value::Array(Array::UInt32(_)) => Some(Subtype::UInt32),
            Value::Array(Array::Float(_)) => Some(Subtype::Float),
            _ => None,
        }
    }

    /// The value as a 64-bit integer, if it is an integer of any width.
    pub fn as_int(&self) -> (r: Option<i64>)
        ensures
            r matches Some(n) ==> int_of(self@) == Some(n as int),
            r is None ==> int_of(self@) is None,
    {
        match self {
            Value::Int8(n) => Some(*n as i64),
            Value::UInt8(n) => Some(*n as i64),
            Value::Int16(n) => Some(*n as i64),
            Value::UInt16(n) => Some(*n as i64),
            Value::Int32(n) => Some(*n as i64),
            Value::UInt32(n) => Some(*n as i64),
            _ => None,
        }
    }

    /// Whether the value is an integer of any width.
    pub fn is_int(&self) -> (r: bool)
        ensures
            r == int_of(self@) is Some,
    {
        match self {
            Value::Int8(_) | Value::UInt8(_) | Value::Int16(_) | Value::UInt16(_) | Value::Int32(_)
            | Value::UInt32(_) => true,
            _ => false,
        }
    }

    /// The value as a character byte, if it is one.
    pub fn as_char(&self) -> (r: Option<u8>)
        ensures
            r == (match self@ {
                ValueView::Character(x) => Some(x),
                _ => None::<u8>,
            }),
    {
        match self {
            Value::Character(x) => Some(*x),
            _ => None,
        }
    }

    /// Whether the value is a character byte.
    pub fn is_char(&self) -> (r: bool)
        ensures
            r == self@ is Character,
    {
        match self {
            Value::Character(_) => true,
            _ => false,
        }
    }

    /// The value as a 32-bit integer, if it is one.
    pub fn as_int32(&self) -> (r: Option<i32>)
        ensures
            r == (match self@ {
                ValueView::Int32(x) => Some(x),
                _ => None::<i32>,
            }),
    {
        match self {
            Value::Int32(x) => Some(*x),
            _ => None,
        }
    }

    /// Whether the value is a 32-bit integer.
    pub fn is_int32(&self) -> (r: bool)
        ensures
            r == self@ is Int32,
    {
        match self {
            Value::Int32(_) => true,
            _ => false,
        }
    }

    /// The value as a float (its bit pattern), if it is one.
    pub fn as_float(&self) -> (r: Option<u32>)
        ensures
            r == (match self@ {
                ValueView::Float(x) => Some(x),
                _ => None::<u32>,
            }),
    {
        match self {
            Value::Float(x) => Some(*x),
            _ => None,
        }
    }

    /// Whether the value is a float (its bit pattern).
    pub fn is_float(&self) -> (r: bool)
        ensures
            r == self@ is Float,
    {
        match self {
            Value::Float(_) => true,
            _ => false,
        }
    }

    /// The bytes of the value, if it is a string.
    pub fn as_str(&self) -> (r: Option<&[u8]>)
        ensures
            r matches Some(b) ==> self@ == ValueView::String(b@),
            r is None ==> !(self@ is String),
    {
        match self {
            Value::String(b) => Some(b.as_slice()),
            _ => None,
        }
    }

    /// Whether the value is a string.
    pub fn is_str(&self) -> (r: bool)
        ensures
            r == self@ is String,
    {
        match self {
            Value::String(_) => true,
            _ => false,
        }
    }

    /// The bytes of the value, if it is a hex string.
    pub fn as_hex(&self) -> (r: Option<&[u8]>)
        ensures
            r matches Some(b) ==> self@ == ValueView::Hex(b@),
            r is None ==> !(self@ is Hex),
    {
        match self {
            Value::Hex(b) => Some(b.as_slice()),
            _ => None,
        }
    }

    /// Whether the value is a hex string.
    pub fn is_hex(&self) -> (r: bool)
        ensures
            r == self@ is Hex,
    {
        match self {
            Value::Hex(_) => true,
            _ => false,
        }
    }

    /// The elements of the value, if it is an array of 8-bit integers.
    pub fn as_int8_array(&self) -> (r: Option<&[i8]>)
        ensures
            r matches Some(a) ==> self@ == ValueView::Array(ArrayView::Int8(a@)),
            r is None ==> !(self@ matches ValueView::Array(ArrayView::Int8(_))),
    {
        match self {
            Value::Array(Array::Int8(a)) => Some(a.as_slice()),
            _ => None,
        }
    }

    /// Whether the value is an array of 8-bit integers.
    pub fn is_int8_array(&self) -> (r: bool)
        ensures
            r == self@ matches ValueView::Array(ArrayView::Int8(_)),
    {
        match self {
            Value::Array(Array::Int8(_)) => true,
            _ => false,
        }
    }

    /// The elements of the value, if it is an array of 8-bit unsigned integers.
    pub fn as_uint8_array(&self) -> (r: Option<&[u8]>)
        ensures
            r matches Some(a) ==> self@ == ValueView::Array(ArrayView::UInt8(a@)),
            r is None ==> !(self@ matches ValueView::Array(ArrayView::UInt8(_))),
    {
        match self {
            Value::Array(Array::UInt8(a)) => Some(a.as_slice()),
            _ => None,
        }
    }

    /// Whether the value is an array of 8-bit unsigned integers.
    pub fn is_uint8_array(&self) -> (r: bool)
        ensures
            r == self@ matches ValueView::Array(ArrayView::UInt8(_)),
    {
        match self {
            Value::Array(Array::UInt8(_)) => true,
            _ => false,
        }
    }

    /// The elements of the value, if it is an array of 16-bit integers.
    pub fn as_int16_array(&self) -> (r: Option<&[i16]>)
        ensures
            r matches Some(a) ==> self@ == ValueView::Array(ArrayView::Int16(a@)),
            r is None ==> !(self@ matches ValueView::Array(ArrayView::Int16(_))),
    {
        match self {
            Value::Array(Array::Int16(a)) => Some(a.as_slice()),
            _ => None,
        }
    }

    /// Whether the value is an array of 16-bit integers.
    pub fn is_int16_array(&self) -> (r: bool)
        ensures
            r == self@ matches ValueView::Array(ArrayView::Int16(_)),
    {
        match self {
            Value::Array(Array::Int16(_)) => true,
            _ => false,
        }
    }

    /// The elements of the value, if it is an array of 16-bit unsigned integers.
    pub fn as_uint16_array(&self) -> (r: Option<&[u16]>)
        ensures
            r matches Some(a) ==> self@ == ValueView::Array(ArrayView::UInt16(a@)),
            r is None ==> !(self@ matches ValueView::Array(ArrayView::UInt16(_))),
    {
        match self {
            Value::Array(Array::UInt16(a)) => Some(a.as_slice()),
            _ => None,
        }
    }

    /// Whether the value is an array of 16-bit unsigned integers.
    pub fn is_uint16_array(&self) -> (r: bool)
        ensures
            r == self@ matches ValueView::Array(ArrayView::UInt16(_)),
    {
        match self {
            Value::Array(Array::UInt16(_)) => true,
            _ => false,
        }
    }

    /// The elements of the value, if it is an array of 32-bit integers.
    pub fn as_int32_array(&self) -> (r: Option<&[i32]>)
        ensures
            r matches Some(a) ==> self@ == ValueView::Array(ArrayView::Int32(a@)),
            r is None ==> !(self@ matches ValueView::Array(ArrayView::Int32(_))),
    {
        match self {
            Value::Array(Array::Int32(a)) => Some(a.as_slice()),
            _ => None,
        }
    }

    /// Whether the value is an array of 32-bit integers.
    pub fn is_int32_array(&self) -> (r: bool)
        ensures
            r == self@ matches ValueView::Array(ArrayView::Int32(_)),
    {
        match self {
            Value::Array(Array::Int32(_)) => true,
            _ => false,
        }
    }

    /// The elements of the value, if it is an array of 32-bit unsigned integers.
    pub fn as_uint32_array(&self) -> (r: Option<&[u32]>)
        ensures
            r matches Some(a) ==> self@ == ValueView::Array(ArrayView::UInt32(a@)),
            r is None ==> !(self@ matches ValueView::Array(ArrayView::UInt32(_))),
    {
        match self {
            Value::Array(Array::UInt32(a)) => Some(a.as_slice()),
            _ => None,
        }
    }

    /// Whether the value is an array of 32-bit unsigned integers.
    pub fn is_uint32_array(&self) -> (r: bool)
        ensures
            r == self@ matches ValueView::Array(ArrayView::UInt32(_)),
    {
        match self {
            Value::Array(Array::UInt32(_)) => true,
            _ => false,
        }
    }

    /// The elements of the value, if it is an array of floats (as bit patterns).
    pub fn as_float_array(&self) -> (r: Option<&[u32]>)
        ensures
            r matches Some(a) ==> self@ == ValueView::Array(ArrayView::Float(a@)),
            r is None ==> !(self@ matches ValueView::Array(ArrayView::Float(_))),
    {
        match self {
            Value::Array(Array::Float(a)) => Some(a.as_slice()),
            _ => None,
        }
    }

    /// Whether the value is an array of floats (as bit patterns).
    pub fn is_float_array(&self) -> (r: bool)
        ensures
            r == self@ matches ValueView::Array(ArrayView::Float(_)),
    {
        match self {
            Value::Array(Array::Float(_)) => true,
            _ => false,
        }
    }

    /// The integer value of smallest width that holds `n`.
    pub fn from_i32(n: i32) -> (r: Value)
        ensures
            r@ == smallest_int(n as int),
    {
        if n >= 0 {
            Value::from_u32(n as u32)
        } else if n >= -0x80 {
            Value::Int8(n as i8)
        } else if n >= -0x8000 {
            Value::Int16(n as i16)
        } else {
            Value::Int32(n)
        }
    }

    /// The unsigned integer value of smallest width that holds `n`.
    pub fn from_u32(n: u32) -> (r: Value)
        ensures
            r@ == smallest_int(n as int),
    {
        if n <= 0xff {
            Value::UInt8(n as u8)
        } else if n <= 0xffff {
            Value::UInt16(n as u16)
        } else {
            Value::UInt32(n)
        }
    }
}

impl From<i8> for Value {
    /// The integer value of smallest width that holds `n`.
    fn from(n: i8) -> (r: Value)
        ensures
            r@ == smallest_int(n as int),
    {
        if n >= 0 {
            Value::UInt8(n as u8)
        } else {
            Value::Int8(n)
        }
    }
}

impl vstd::std_specs::convert::FromSpecImpl<i8> for Value {
    open spec fn obeys_from_spec() -> bool {
        false
    }

    open spec fn from_spec(n: i8) -> Value {
        arbitrary()
    }
}

impl From<u8> for Value {
    /// The integer value of smallest width that holds `n`.
    fn from(n: u8) -> (r: Value)
        ensures
            r@ == smallest_int(n as int),
    {
        Value::UInt8(n)
    }
}

impl vstd::std_specs::convert::FromSpecImpl<u8> for Value {
    open spec fn obeys_from_spec() -> bool {
        false
    }

    open spec fn from_spec(n: u8) -> Value {
        arbitrary()
    }
}

impl From<i16> for Value {
    /// The integer value of smallest width that holds `n`.
    fn from(n: i16) -> (r: Value)
        ensures
            r@ == smallest_int(n as int),
    {
        Value::from_i32(n as i32)
    }
}

impl vstd::std_specs::convert::FromSpecImpl<i16> for Value {
    open spec fn obeys_from_spec() -> bool {
        false
    }

    open spec fn from_spec(n: i16) -> Value {
        arbitrary()
    }
}

impl From<u16> for Value {
    /// The integer value of smallest width that holds `n`.
    fn from(n: u16) -> (r: Value)
        ensures
            r@ == smallest_int(n as int),
    {
        Value::from_u32(n as u32)
    }
}

impl vstd::std_specs::convert::FromSpecImpl<u16> for Value {
    open spec fn obeys_from_spec() -> bool {
        false
    }

    open spec fn from_spec(n: u16) -> Value {
        arbitrary()
    }
}

impl From<i32> for Value {
    /// The integer value of smallest width that holds `n`.
    fn from(n: i32) -> (r: Value)
        ensures
            r@ == smallest_int(n as int),
    {
        Value::from_i32(n)
    }
}

impl vstd::std_specs::convert::FromSpecImpl<i32> for Value {
    open spec fn obeys_from_spec() -> bool {
        false
    }

    open spec fn from_spec(n: i32) -> Value {
        arbitrary()
    }
}

impl From<u32> for Value {
    /// The integer value of smallest width that holds `n`.
    fn from(n: u32) -> (r: Value)
        ensures
            r@ == smallest_int(n as int),
    {
        Value::from_u32(n)
    }
}

impl vstd::std_specs::convert::FromSpecImpl<u32> for Value {
    open spec fn obeys_from_spec() -> bool {
        false
    }

    open spec fn from_spec(n: u32) -> Value {
        arbitrary()
    }
}

impl From<Vec<i8>> for Value {
    /// An array value of these elements.
    fn from(values: Vec<i8>) -> (r: Value)
        ensures
            r@ == ValueView::Array(ArrayView::Int8(values@)),
    {
        Value::Array(Array::Int8(values))
    }
}

impl vstd::std_specs::convert::FromSpecImpl<Vec<i8>> for Value {
    open spec fn obeys_from_spec() -> bool {
        false
    }

    open spec fn from_spec(values: Vec<i8>) -> Value {
        arbitrary()
    }
}

impl From<Vec<u8>> for Value {
    /// An array value of these elements.
    fn from(values: Vec<u8>) -> (r: Value)
        ensures
            r@ == ValueView::Array(ArrayView::UInt8(values@)),
    {
        Value::Array(Array::UInt8(values))
    }
}

impl vstd::std_specs::convert::FromSpecImpl<Vec<u8>> for Value {
    open spec fn obeys_from_spec() -> bool {
        false
    }

    open spec fn from_spec(values: Vec<u8>) -> Value {
        arbitrary()
    }
}

impl From<Vec<i16>> for Value {
    /// An array value of these elements.
    fn from(values: Vec<i16>) -> (r: Value)
        ensures
            r@ == ValueView::Array(ArrayView::Int16(values@)),
    {
        Value::Array(Array::Int16(values))
    }
}

impl vstd::std_specs::convert::FromSpecImpl<Vec<i16>> for Value {
    open spec fn obeys_from_spec() -> bool {
        false
    }

    open spec fn from_spec(values: Vec<i16>) -> Value {
        arbitrary()
    }
}

impl From<Vec<u16>> for Value {
    /// An array value of these elements.
    fn from(values: Vec<u16>) -> (r: Value)
        ensures
            r@ == ValueView::Array(ArrayView::UInt16(values@)),
    {
        Value::Array(Array::UInt16(values))
    }
}

impl vstd::std_specs::convert::FromSpecImpl<Vec<u16>> for Value {
    open spec fn obeys_from_spec() -> bool {
        false
    }

    open spec fn from_spec(values: Vec<u16>) -> Value {
        arbitrary()
    }
}

impl From<Vec<i32>> for Value {
    /// An array value of these elements.
    fn from(values: Vec<i32>) -> (r: Value)
        ensures
            r@ == ValueView::Array(ArrayView::Int32(values@)),
    {
        Value::Array(Array::Int32(values))
    }
}

impl vstd::std_specs::convert::FromSpecImpl<Vec<i32>> for Value {
    open spec fn obeys_from_spec() -> bool {
        false
    }

    open spec fn from_spec(values: Vec<i32>) -> Value {
        arbitrary()
    }
}

impl From<Vec<u32>> for Value {
    /// An array value of these elements.
    fn from(values: Vec<u32>) -> (r: Value)
        ensures
            r@ == ValueView::Array(ArrayView::UInt32(values@)),
    {
        Value::Array(Array::UInt32(values))
    }
}

impl vstd::std_specs::convert::FromSpecImpl<Vec<u32>> for Value {
    open spec fn obeys_from_spec() -> bool {
        false
    }

    open spec fn from_spec(values: Vec<u32>) -> Value {
        arbitrary()
    }
}

/// The bytes of the elements whose bit patterns are `raw`, `w` bytes each.
pub open spec fn elements_bytes(raw: Seq<int>, w: nat) -> Seq<u8> {
    Seq::new(raw.len() * w, |j: int| byte_at(raw[j / w as int], j % w as int))
}

/// The wire bytes of an array value.
pub open spec fn encoded_array(a: ArrayView) -> Seq<u8> {
    seq![subtype_code(a.subtype())] + le_bytes(a.raw().len() as int, 4) + elements_bytes(
        a.raw(),
        width(a.subtype()),
    )
}

/// The wire bytes of a value (its payload; the type tag is written apart).
pub open spec fn encoded(v: ValueView) -> Seq<u8> {
    match v {
        ValueView::Character(c) => seq![c],
        ValueView::Int8(n) => le_bytes(raw_i8(n), 1),
        ValueView::UInt8(n) => seq![n],
        ValueView::Int16(n) => le_bytes(raw_i16(n), 2),
        ValueView::UInt16(n) => le_bytes(n as int, 2),
        ValueView::Int32(n) => le_bytes(raw_i32(n), 4),
        ValueView::UInt32(n) => le_bytes(n as int, 4),
        ValueView::Float(n) => le_bytes(n as int, 4),
        ValueView::String(s) => s.push(0u8),
        ValueView::Hex(s) => s.push(0u8),
        ValueView::Array(a) => encoded_array(a),
    }
}

/// The number of payload bytes of a fixed-width type.
pub open spec fn fixed_width(t: Type) -> nat {
    match t {
        Type::Character | Type::Int8 | Type::UInt8 => 1,
        Type::Int16 | Type::UInt16 => 2,
        _ => 4,
    }
}

/// The element count that an array's wire bytes announce.
pub open spec fn array_count(s: Seq<u8>) -> int {
    le_value(s.subrange(1, 5))
}

/// Whether `s` starts with the complete encoding of some value of type `t`.
pub open spec fn decodable(t: Type, s: Seq<u8>) -> bool {
    match t {
        Type::String | Type::Hex => s.contains(0u8),
        Type::Array => {
            &&& s.len() >= 5
            &&& exists|st: Subtype| subtype_code(st) == s[0] && s.len() >= 5 + array_count(s)
                * width(st)
        },
        _ => s.len() >= fixed_width(t),
    }
}

/// Why a value could not be decoded. Each of these is a malformed value.
#[derive(Clone, Copy, Debug, PartialEq, Eq, Structural)]
pub enum DecodeError {
    /// The input ended before the value did.
    UnexpectedEof,
    /// A string or hex string has no NUL terminator.
    MissingNulTerminator,
    /// An array's subtype tag names no subtype.
    InvalidSubtype(u8),
}

// ---------------------------------------------------------------------------------------------
// Decoding

/// Reads an unsigned little-endian integer of `w` bytes.
fn read_le(src: &mut &[u8], w: usize) -> (r: Result<u32, DecodeError>)
    requires
        w == 1 || w == 2 || w == 4,
    ensures
        r is Ok <==> old(src)@.len() >= w,
        r is Err ==> r == Err::<u32, DecodeError>(DecodeError::UnexpectedEof),
        r matches Ok(x) ==> {
            &&& x as int == le_value(old(src)@.subrange(0, w as int))
            &&& final(src)@ == old(src)@.subrange(w as int, old(src)@.len() as int)
        },
{
    let s: &[u8] = *src;
    if s.len() < w {
        return Err(DecodeError::UnexpectedEof);
    }
    let x: u32 = if w == 1 {
        s[0] as u32
    } else if w == 2 {
        s[0] as u32 + 0x100 * (s[1] as u32)
    } else {
        s[0] as u32 + 0x100 * (s[1] as u32) + 0x1_0000 * (s[2] as u32) + 0x100_0000 * (
        s[3] as u32)
    };
    *src = slice_subrange(s, w, s.len());
    Ok(x)
}

/// Reads a NUL-terminated byte string and consumes its terminator.
pub fn decode_string(src: &mut &[u8]) -> (r: Result<Vec<u8>, DecodeError>)
    ensures
        r is Ok <==> old(src)@.contains(0u8),
        r is Err ==> r == Err::<Vec<u8>, DecodeError>(DecodeError::MissingNulTerminator),
        r matches Ok(b) ==> {
            &&& !b@.contains(0u8)
            &&& b@.len() < old(src)@.len()
            &&& b@.push(0u8) == old(src)@.subrange(0, b@.len() + 1int)
            &&& final(src)@ == old(src)@.subrange(b@.len() + 1int, old(src)@.len() as int)
        },
{
    let s: &[u8] = *src;
    let mut i: usize = 0;
    while i < s.len() && s[i] != 0
        invariant
            i <= s@.len(),
            forall|j: int| 0 <= j < i ==> s@[j] != 0u8,
        decreases s@.len() - i,
    {
        i = i + 1;
    }
    if i == s.len() {
        return Err(DecodeError::MissingNulTerminator);
    }
    let mut buf: Vec<u8> = Vec::new();
    let mut k: usize = 0;
    while k < i
        invariant
            k <= i < s@.len(),
            buf@ == s@.subrange(0, k as int),
        decreases i - k,
    {
        buf.push(s[k]);
        k = k + 1;
    }
    assert(buf@.push(0u8) =~= s@.subrange(0, i + 1));
    assert(!buf@.contains(0u8)) by {
        assert forall|j: int| 0 <= j < buf@.len() implies buf@[j] != 0u8 by {}
    }
    *src = slice_subrange(s, i + 1, s.len());
    Ok(buf)
}

/// The error that decoding a value of type `t` from `s` reports when `s` does not start with one.
pub open spec fn decode_error(t: Type, s: Seq<u8>) -> DecodeError {
    match t {
        Type::String | Type::Hex => DecodeError::MissingNulTerminator,
        Type::Array => if s.len() >= 1 && forall|st: Subtype| subtype_code(st) != s[0] {
            DecodeError::InvalidSubtype(s[0])
        } else {
            DecodeError::UnexpectedEof
        },
        _ => DecodeError::UnexpectedEof,
    }
}

/// The 8-bit integer whose bit pattern is `x`.
fn to_i8(x: u32) -> (r: i8)
    requires
        x < 0x100,
    ensures
        raw_i8(r) == x,
{
    if x >= 0x80 {
        (x as i32 - 0x100) as i8
    } else {
        x as i8
    }
}

/// The 16-bit integer whose bit pattern is `x`.
fn to_i16(x: u32) -> (r: i16)
    requires
        x < 0x1_0000,
    ensures
        raw_i16(r) == x,
{
    if x >= 0x8000 {
        (x as i32 - 0x1_0000) as i16
    } else {
        x as i16
    }
}

/// The 32-bit integer whose bit pattern is `x`.
fn to_i32(x: u32) -> (r: i32)
    ensures
        raw_i32(r) == x,
{
    if x >= 0x8000_0000 {
        (x as i64 - 0x1_0000_0000) as i32
    } else {
        x as i32
    }
}

/// The bit patterns of `count` little-endian elements of `w` bytes each at the start of `s`.
fn read_elements(s: &[u8], count: usize, w: usize) -> (r: Vec<u32>)
    requires
        w == 1 || w == 2 || w == 4,
        count * w <= s@.len(),
    ensures
        r@.len() == count,
        forall|j: int|
            0 <= j < count ==> #[trigger] r@[j] as int == le_value(
                s@.subrange(j * w, j * w + w),
            ) && r@[j] < span(w as nat),
{
    let mut out: Vec<u32> = Vec::new();
    let mut i: usize = 0;
    let mut pos: usize = 0;
    while i < count
        invariant
            w == 1 || w == 2 || w == 4,
            count * w <= s@.len(),
            i <= count,
            pos == i * w,
            out@.len() == i,
            forall|j: int|
                0 <= j < i ==> #[trigger] out@[j] as int == le_value(
                    s@.subrange(j * w, j * w + w),
                ) && out@[j] < span(w as nat),
        decreases count - i,
    {
        assert(pos + w <= count * w) by (nonlinear_arith)
            requires
                pos == i * w,
                i < count,
        ;
        let x: u32 = if w == 1 {
            s[pos] as u32
        } else if w == 2 {
            s[pos] as u32 + 0x100 * (s[pos + 1] as u32)
        } else {
            s[pos] as u32 + 0x100 * (s[pos + 1] as u32) + 0x1_0000 * (s[pos + 2] as u32)
                + 0x100_0000 * (s[pos + 3] as u32)
        };
        proof {
            let sub = s@.subrange(pos as int, pos + w);
            assert(x as int == le_value(sub));
            lemma_le_bytes_of_value(sub);
        }
        out.push(x);
        pos = pos + w;
        i = i + 1;
        assert(pos == i * w) by (nonlinear_arith)
            requires
                pos == (i - 1) * w + w,
        ;
    }
    out
}

/// Bytes `s` that read, `w` at a time, as the bit patterns `raw` are the bytes of `raw`.
pub(crate) proof fn lemma_elements_bytes(raw: Seq<int>, w: nat, s: Seq<u8>)
    requires
        w == 1 || w == 2 || w == 4,
        s.len() == raw.len() * w,
        forall|j: int|
            0 <= j < raw.len() ==> #[trigger] raw[j] == le_value(s.subrange(j * w, j * w + w)),
    ensures
        elements_bytes(raw, w) == s,
{
    let e = elements_bytes(raw, w);
    assert forall|p: int| 0 <= p < s.len() implies e[p] == s[p] by {
        let q = p / w as int;
        let r = p % w as int;
        vstd::arithmetic::div_mod::lemma_fundamental_div_mod(p, w as int);
        assert(0 <= r < w);
        assert(0 <= q < raw.len()) by (nonlinear_arith)
            requires
                p == w * q + r,
                0 <= r < w,
                0 <= p < raw.len() * w,
        ;
        assert(q * w + w <= raw.len() * w) by (nonlinear_arith)
            requires
                q < raw.len(),
                w > 0,
        ;
        let sub = s.subrange(q * w, q * w + w);
        lemma_le_bytes_of_value(sub);
        assert(raw[q] == le_value(sub));
        assert(le_bytes(raw[q], w)[r] == sub[r]);
        assert(sub[r] == s[q * w + r]);
        assert(q * w + r == p) by (nonlinear_arith)
            requires
                p == w * q + r,
        ;
    }
    assert(e =~= s);
}

/// The 8-bit integers whose bit patterns are `raw`.
fn to_i8s(raw: &Vec<u32>) -> (r: Vec<i8>)
    requires
        forall|j: int| 0 <= j < raw@.len() ==> #[trigger] raw@[j] < 0x100,
    ensures
        r@.len() == raw@.len(),
        forall|j: int| 0 <= j < raw@.len() ==> raw_i8(#[trigger] r@[j]) == raw@[j],
{
    let mut out: Vec<i8> = Vec::new();
    let mut i: usize = 0;
    while i < raw.len()
        invariant
            forall|j: int| 0 <= j < raw@.len() ==> #[trigger] raw@[j] < 0x100,
            i <= raw@.len(),
            out@.len() == i,
            forall|j: int| 0 <= j < i ==> raw_i8(#[trigger] out@[j]) == raw@[j],
        decreases raw@.len() - i,
    {
        out.push(to_i8(raw[i]));
        i = i + 1;
    }
    out
}

/// The 8-bit unsigned integers whose bit patterns are `raw`.
fn to_u8s(raw: &Vec<u32>) -> (r: Vec<u8>)
    requires
        forall|j: int| 0 <= j < raw@.len() ==> #[trigger] raw@[j] < 0x100,
    ensures
        r@.len() == raw@.len(),
        forall|j: int| 0 <= j < raw@.len() ==> #[trigger] r@[j] as int == raw@[j],
{
    let mut out: Vec<u8> = Vec::new();
    let mut i: usize = 0;
    while i < raw.len()
        invariant
            forall|j: int| 0 <= j < raw@.len() ==> #[trigger] raw@[j] < 0x100,
            i <= raw@.len(),
            out@.len() == i,
            forall|j: int| 0 <= j < i ==> #[trigger] out@[j] as int == raw@[j],
        decreases raw@.len() - i,
    {
        out.push(raw[i] as u8);
        i = i + 1;
    }
    out
}

/// The 16-bit integers whose bit patterns are `raw`.
fn to_i16s(raw: &Vec<u32>) -> (r: Vec<i16>)
    requires
        forall|j: int| 0 <= j < raw@.len() ==> #[trigger] raw@[j] < 0x1_0000,
    ensures
        r@.len() == raw@.len(),
        forall|j: int| 0 <= j < raw@.len() ==> raw_i16(#[trigger] r@[j]) == raw@[j],
{
    let mut out: Vec<i16> = Vec::new();
    let mut i: usize = 0;
    while i < raw.len()
        invariant
            forall|j: int| 0 <= j < raw@.len() ==> #[trigger] raw@[j] < 0x1_0000,
            i <= raw@.len(),
            out@.len() == i,
            forall|j: int| 0 <= j < i ==> raw_i16(#[trigger] out@[j]) == raw@[j],
        decreases raw@.len() - i,
    {
        out.push(to_i16(raw[i]));
        i = i + 1;
    }
    out
}

/// The 16-bit unsigned integers whose bit patterns are `raw`.
fn to_u16s(raw: &Vec<u32>) -> (r: Vec<u16>)
    requires
        forall|j: int| 0 <= j < raw@.len() ==> #[trigger] raw@[j] < 0x1_0000,
    ensures
        r@.len() == raw@.len(),
        forall|j: int| 0 <= j < raw@.len() ==> #[trigger] r@[j] as int == raw@[j],
{
    let mut out: Vec<u16> = Vec::new();
    let mut i: usize = 0;
    while i < raw.len()
        invariant
            forall|j: int| 0 <= j < raw@.len() ==> #[trigger] raw@[j] < 0x1_0000,
            i <= raw@.len(),
            out@.len() == i,
            forall|j: int| 0 <= j < i ==> #[trigger] out@[j] as int == raw@[j],
        decreases raw@.len() - i,
    {
        out.push(raw[i] as u16);
        i = i + 1;
    }
    out
}

/// The 32-bit integers whose bit patterns are `raw`.
fn to_i32s(raw: &Vec<u32>) -> (r: Vec<i32>)
    ensures
        r@.len() == raw@.len(),
        forall|j: int| 0 <= j < raw@.len() ==> raw_i32(#[trigger] r@[j]) == raw@[j],
{
    let mut out: Vec<i32> = Vec::new();
    let mut i: usize = 0;
    while i < raw.len()
        invariant
            i <= raw@.len(),
            out@.len() == i,
            forall|j: int| 0 <= j < i ==> raw_i32(#[trigger] out@[j]) == raw@[j],
        decreases raw@.len() - i,
    {
        out.push(to_i32(raw[i]));
        i = i + 1;
    }
    out
}

/// The array of subtype `st` whose element bit patterns are `raw`.
fn array_from_raw(st: Subtype, raw: Vec<u32>) -> (a: Array)
    requires
        forall|j: int| 0 <= j < raw@.len() ==> #[trigger] raw@[j] < span(width(st)),
    ensures
        a@.subtype() == st,
        a@.raw() == Seq::new(raw@.len(), |j: int| raw@[j] as int),
{
    let ghost rs = Seq::new(raw@.len(), |j: int| raw@[j] as int);
    let a = match st {
        Subtype::Int8 => Array::Int8(to_i8s(&raw)),
        Subtype::UInt8 => Array::UInt8(to_u8s(&raw)),
        Subtype::Int16 => Array::Int16(to_i16s(&raw)),
        Subtype::UInt16 => Array::UInt16(to_u16s(&raw)),
        Subtype::Int32 => Array::Int32(to_i32s(&raw)),
        Subtype::UInt32 => Array::UInt32(raw),
        Subtype::Float => Array::Float(raw),
    };
    assert(a@.raw() =~= rs);
    a
}

/// Bytes too short for the elements that their count announces hold no array.
proof fn lemma_array_cut_short(s: Seq<u8>, st: Subtype)
    requires
        s.len() >= 5,
        subtype_code(st) == s[0],
        s.len() < 5 + array_count(s) * width(st),
    ensures
        !decodable(Type::Array, s),
{
    assert forall|t: Subtype| subtype_code(t) == s[0] implies t == st by {}
}

/// An array read from `s` is the start of `s`.
proof fn lemma_array_read(s: Seq<u8>, st: Subtype, count: int, body: Seq<u8>, a: ArrayView)
    requires
        s.len() >= 5 + body.len(),
        subtype_code(st) == s[0],
        count == le_value(s.subrange(1, 5)),
        body == s.subrange(5, 5 + body.len() as int),
        a.subtype() == st,
        a.raw().len() == count,
        elements_bytes(a.raw(), width(st)) == body,
    ensures
        encoded_array(a) == s.subrange(0, 5 + body.len() as int),
        a.raw().len() < 0x1_0000_0000,
{
    let cs = s.subrange(1, 5);
    lemma_le_bytes_of_value(cs);
    assert(seq![s[0]] + cs + body =~= s.subrange(0, 5 + body.len() as int));
}

/// Reads an array value: its subtype tag, its element count and its elements.
pub fn decode_array(src: &mut &[u8]) -> (r: Result<Array, DecodeError>)
    ensures
        r is Ok <==> decodable(Type::Array, old(src)@),
        r matches Ok(a) ==> {
            let n = encoded_array(a@).len() as int;
            &&& a@.raw().len() < 0x1_0000_0000
            &&& n <= old(src)@.len()
            &&& encoded_array(a@) == old(src)@.subrange(0, n)
            &&& final(src)@ == old(src)@.subrange(n, old(src)@.len() as int)
        },
        r matches Err(e) ==> e == decode_error(Type::Array, old(src)@),
{
    let s: &[u8] = *src;
    if s.len() < 1 {
        return Err(DecodeError::UnexpectedEof);
    }
    let st = match Subtype::from_u8(s[0]) {
        Some(t) => t,
        None => return Err(DecodeError::InvalidSubtype(s[0])),
    };
    if s.len() < 5 {
        return Err(DecodeError::UnexpectedEof);
    }
    let count: u32 = s[1] as u32 + 0x100 * (s[2] as u32) + 0x1_0000 * (s[3] as u32) + 0x100_0000
        * (s[4] as u32);
    proof {
        assert(s@.subrange(1, 5)[0] == s@[1]);
        assert(count as int == array_count(s@));
    }
    let w = st.width();
    assert((count as u64) * (w as u64) <= 0x4_0000_0000) by (nonlinear_arith)
        requires
            w <= 4,
    ;
    if (count as u64) * (w as u64) > (s.len() - 5) as u64 {
        proof {
            lemma_array_cut_short(s@, st);
        }
        return Err(DecodeError::UnexpectedEof);
    }
    let n = count as usize;
    let end = 5 + n * w;
    let body = slice_subrange(s, 5, end);
    let raw = read_elements(body, n, w);
    let ghost rs = Seq::new(raw@.len(), |j: int| raw@[j] as int);
    let array = array_from_raw(st, raw);
    proof {
        lemma_elements_bytes(rs, w as nat, body@);
        lemma_array_read(s@, st, count as int, body@, array@);
    }
    *src = slice_subrange(s, end, s.len());
    Ok(array)
}

/// Reads a value of type `ty`. On success the input is advanced past exactly the bytes of the
/// value; on failure it is left where it stood or part-way through the value.
#[verifier::rlimit(40)]
pub fn decode_value(src: &mut &[u8], ty: Type) -> (r: Result<Value, DecodeError>)
    ensures
        r is Ok <==> decodable(ty, old(src)@),
        r matches Ok(v) ==> {
            let n = encoded(v@).len() as int;
            &&& v@.ty() == ty
            &&& v@.wf()
            &&& n <= old(src)@.len()
            &&& encoded(v@) == old(src)@.subrange(0, n)
            &&& final(src)@ == old(src)@.subrange(n, old(src)@.len() as int)
        },
        r matches Err(e) ==> e == decode_error(ty, old(src)@),
{
    let ghost s = src@;
    match ty {
        Type::String => match decode_string(src) {
            Ok(b) => Ok(Value::String(b)),
            Err(e) => Err(e),
        },
        Type::Hex => match decode_string(src) {
            Ok(b) => Ok(Value::Hex(b)),
            Err(e) => Err(e),
        },
        Type::Array => match decode_array(src) {
            Ok(a) => Ok(Value::Array(a)),
            Err(e) => Err(e),
        },
        _ => {
            let w: usize = match ty {
                Type::Character | Type::Int8 | Type::UInt8 => 1,
                Type::Int16 | Type::UInt16 => 2,
                _ => 4,
            };
            let x = match read_le(src, w) {
                Ok(x) => x,
                Err(e) => return Err(e),
            };
            let ghost sub = s.subrange(0, w as int);
            proof {
                lemma_le_bytes_of_value(sub);
            }
            let v = match ty {
                Type::Character => Value::Character(x as u8),
                Type::Int8 => Value::Int8(to_i8(x)),
                Type::UInt8 => Value::UInt8(x as u8),
                Type::Int16 => Value::Int16(to_i16(x)),
                Type::UInt16 => Value::UInt16(x as u16),
                Type::Int32 => Value::Int32(to_i32(x)),
                Type::UInt32 => Value::UInt32(x),
                _ => Value::Float(x),
            };
            assert(encoded(v@) =~= sub);
            Ok(v)
        },
    }
}

// ---------------------------------------------------------------------------------------------
// Encoding

/// Writes the `w` low bytes of `x`, least significant first.
pub(crate) fn push_le(dst: &mut Vec<u8>, x: u32, w: usize)
    requires
        w == 1 || w == 2 || w == 4,
        (x as int) < span(w as nat),
    ensures
        final(dst)@ == old(dst)@ + le_bytes(x as int, w as nat),
{
    dst.push((x % 0x100) as u8);
    if w >= 2 {
        dst.push(((x / 0x100) % 0x100) as u8);
    }
    if w == 4 {
        dst.push(((x / 0x1_0000) % 0x100) as u8);
        dst.push(((x / 0x100_0000) % 0x100) as u8);
    }
    assert(final(dst)@ =~= old(dst)@ + le_bytes(x as int, w as nat));
}

/// Byte `p` of the elements' bytes is byte `p % w` of element `p / w`.
proof fn lemma_element_byte(len: int, w: nat, j: int, k: int)
    requires
        w == 1 || w == 2 || w == 4,
        0 <= j < len,
        0 <= k < w,
    ensures
        (j * w + k) / (w as int) == j,
        (j * w + k) % (w as int) == k,
        0 <= j * w + k < len * w,
{
    vstd::arithmetic::div_mod::lemma_fundamental_div_mod_converse(j * w + k, w as int, j, k);
    assert(j * w + k < len * w) by (nonlinear_arith)
        requires
            j < len,
            k < w,
    ;
    assert(0 <= j * w) by (nonlinear_arith)
        requires
            0 <= j,
    ;
}

/// Appending an element appends its bytes.
pub(crate) proof fn lemma_elements_bytes_push(raw: Seq<int>, x: int, w: nat)
    requires
        w == 1 || w == 2 || w == 4,
    ensures
        elements_bytes(raw.push(x), w) == elements_bytes(raw, w) + le_bytes(x, w),
{
    let a = elements_bytes(raw.push(x), w);
    let b = elements_bytes(raw, w) + le_bytes(x, w);
    let n = raw.len() as int;
    assert((n + 1) * w == n * w + w) by (nonlinear_arith);
    assert forall|p: int| 0 <= p < a.len() implies a[p] == b[p] by {
        let q = p / w as int;
        let r = p % w as int;
        vstd::arithmetic::div_mod::lemma_fundamental_div_mod(p, w as int);
        assert(0 <= q < n + 1) by (nonlinear_arith)
            requires
                p == w * q + r,
                0 <= r < w,
                0 <= p < (n + 1) * w,
        ;
        lemma_element_byte(n + 1, w, q, r);
        if q < n {
            lemma_element_byte(n, w, q, r);
        } else {
            assert(p - n * w == r) by (nonlinear_arith)
                requires
                    p == w * q + r,
                    q == n,
            ;
        }
    }
    assert(a =~= b);
}

/// The bytes of element `j` stand at `j * w` in the elements' bytes.
pub(crate) proof fn lemma_elements_bytes_at(raw: Seq<int>, w: nat, j: int)
    requires
        w == 1 || w == 2 || w == 4,
        0 <= j < raw.len(),
    ensures
        j * w + w <= raw.len() * w,
        elements_bytes(raw, w).subrange(j * w, j * w + w) == le_bytes(raw[j], w),
{
    assert(j * w + w <= raw.len() * w) by (nonlinear_arith)
        requires
            j < raw.len(),
    ;
    assert forall|k: int| 0 <= k < w implies elements_bytes(raw, w)[j * w + k] == le_bytes(
        raw[j],
        w,
    )[k] by {
        lemma_element_byte(raw.len() as int, w, j, k);
    }
    assert(elements_bytes(raw, w).subrange(j * w, j * w + w) =~= le_bytes(raw[j], w));
}

/// Writes the elements of an array, without its subtype tag or count.
#[verifier::rlimit(40)]
fn encode_elements(dst: &mut Vec<u8>, array: &Array)
    ensures
        final(dst)@ == old(dst)@ + elements_bytes(array@.raw(), width(array@.subtype())),
{
    let ghost start = dst@;
    match array {
        Array::Int8(a) => {
            let ghost f = |j: int| raw_i8(a@[j]);
            let mut i: usize = 0;
            while i < a.len()
                invariant
                    f == (|j: int| raw_i8(a@[j])),
                    i <= a@.len(),
                    dst@ == start + elements_bytes(Seq::new(i as nat, f), 1),
                decreases a@.len() - i,
            {
                let x: u32 = if a[i] < 0 { (a[i] as i32 + 0x100) as u32 } else { a[i] as u32 };
                assert(x as int == f(i as int));
                push_le(dst, x, 1);
                proof {
                    assert(Seq::new((i + 1) as nat, f) =~= Seq::new(i as nat, f).push(f(i as int)));
                    lemma_elements_bytes_push(Seq::new(i as nat, f), f(i as int), 1);
                    assert(dst@ =~= start + elements_bytes(Seq::new((i + 1) as nat, f), 1));
                }
                i = i + 1;
            }
            assert(Seq::new(a@.len(), f) =~= array@.raw());
        },
        Array::UInt8(a) => {
            let ghost f = |j: int| a@[j] as int;
            let mut i: usize = 0;
            while i < a.len()
                invariant
                    f == (|j: int| a@[j] as int),
                    i <= a@.len(),
                    dst@ == start + elements_bytes(Seq::new(i as nat, f), 1),
                decreases a@.len() - i,
            {
                let x: u32 = a[i] as u32;
                assert(x as int == f(i as int));
                push_le(dst, x, 1);
                proof {
                    assert(Seq::new((i + 1) as nat, f) =~= Seq::new(i as nat, f).push(f(i as int)));
                    lemma_elements_bytes_push(Seq::new(i as nat, f), f(i as int), 1);
                    assert(dst@ =~= start + elements_bytes(Seq::new((i + 1) as nat, f), 1));
                }
                i = i + 1;
            }
            assert(Seq::new(a@.len(), f) =~= array@.raw());
        },
        Array::Int16(a) => {
            let ghost f = |j: int| raw_i16(a@[j]);
            let mut i: usize = 0;
            while i < a.len()
                invariant
                    f == (|j: int| raw_i16(a@[j])),
                    i <= a@.len(),
                    dst@ == start + elements_bytes(Seq::new(i as nat, f), 2),
                decreases a@.len() - i,
            {
                let x: u32 = if a[i] < 0 { (a[i] as i32 + 0x1_0000) as u32 } else { a[i] as u32 };
                assert(x as int == f(i as int));
                push_le(dst, x, 2);
                proof {
                    assert(Seq::new((i + 1) as nat, f) =~= Seq::new(i as nat, f).push(f(i as int)));
                    lemma_elements_bytes_push(Seq::new(i as nat, f), f(i as int), 2);
                    assert(dst@ =~= start + elements_bytes(Seq::new((i + 1) as nat, f), 2));
                }
                i = i + 1;
            }
            assert(Seq::new(a@.len(), f) =~= array@.raw());
        },
        Array::UInt16(a) => {
            let ghost f = |j: int| a@[j] as int;
            let mut i: usize = 0;
            while i < a.len()
                invariant
                    f == (|j: int| a@[j] as int),
                    i <= a@.len(),
                    dst@ == start + elements_bytes(Seq::new(i as nat, f), 2),
                decreases a@.len() - i,
            {
                let x: u32 = a[i] as u32;
                assert(x as int == f(i as int));
                push_le(dst, x, 2);
                proof {
                    assert(Seq::new((i + 1) as nat, f) =~= Seq::new(i as nat, f).push(f(i as int)));
                    lemma_elements_bytes_push(Seq::new(i as nat, f), f(i as int), 2);
                    assert(dst@ =~= start + elements_bytes(Seq::new((i + 1) as nat, f), 2));
                }
                i = i + 1;
            }
            assert(Seq::new(a@.len(), f) =~= array@.raw());
        },
        Array::Int32(a) => {
            let ghost f = |j: int| raw_i32(a@[j]);
            let mut i: usize = 0;
            while i < a.len()
                invariant
                    f == (|j: int| raw_i32(a@[j])),
                    i <= a@.len(),
                    dst@ == start + elements_bytes(Seq::new(i as nat, f), 4),
                decreases a@.len() - i,
            {
                let x: u32 = if a[i] < 0 { (a[i] as i64 + 0x1_0000_0000) as u32 } else { a[i] as u32 };
                assert(x as int == f(i as int));
                push_le(dst, x, 4);
                proof {
                    assert(Seq::new((i + 1) as nat, f) =~= Seq::new(i as nat, f).push(f(i as int)));
                    lemma_elements_bytes_push(Seq::new(i as nat, f), f(i as int), 4);
                    assert(dst@ =~= start + elements_bytes(Seq::new((i + 1) as nat, f), 4));
                }
                i = i + 1;
            }
            assert(Seq::new(a@.len(), f) =~= array@.raw());
        },
        Array::UInt32(a) => {
            let ghost f = |j: int| a@[j] as int;
            let mut i: usize = 0;
            while i < a.len()
                invariant
                    f == (|j: int| a@[j] as int),
                    i <= a@.len(),
                    dst@ == start + elements_bytes(Seq::new(i as nat, f), 4),
                decreases a@.len() - i,
            {
                let x: u32 = a[i];
                assert(x as int == f(i as int));
                push_le(dst, x, 4);
                proof {
                    assert(Seq::new((i + 1) as nat, f) =~= Seq::new(i as nat, f).push(f(i as int)));
                    lemma_elements_bytes_push(Seq::new(i as nat, f), f(i as int), 4);
                    assert(dst@ =~= start + elements_bytes(Seq::new((i + 1) as nat, f), 4));
                }
                i = i + 1;
            }
            assert(Seq::new(a@.len(), f) =~= array@.raw());
        },
        Array::Float(a) => {
            let ghost f = |j: int| a@[j] as int;
            let mut i: usize = 0;
            while i < a.len()
                invariant
                    f == (|j: int| a@[j] as int),
                    i <= a@.len(),
                    dst@ == start + elements_bytes(Seq::new(i as nat, f), 4),
                decreases a@.len() - i,
            {
                let x: u32 = a[i];
                assert(x as int == f(i as int));
                push_le(dst, x, 4);
                proof {
                    assert(Seq::new((i + 1) as nat, f) =~= Seq::new(i as nat, f).push(f(i as int)));
                    lemma_elements_bytes_push(Seq::new(i as nat, f), f(i as int), 4);
                    assert(dst@ =~= start + elements_bytes(Seq::new((i + 1) as nat, f), 4));
                }
                i = i + 1;
            }
            assert(Seq::new(a@.len(), f) =~= array@.raw());
        },
    }
}

/// Writes an array value: its subtype tag, its element count and its elements.
pub fn encode_array(dst: &mut Vec<u8>, array: &Array)
    requires
        array@.raw().len() < 0x1_0000_0000,
    ensures
        final(dst)@ == old(dst)@ + encoded_array(array@),
{
    let (subtype, len): (Subtype, usize) = match array {
        Array::Int8(a) => (Subtype::Int8, a.len()),
        Array::UInt8(a) => (Subtype::UInt8, a.len()),
        Array::Int16(a) => (Subtype::Int16, a.len()),
        Array::UInt16(a) => (Subtype::UInt16, a.len()),
        Array::Int32(a) => (Subtype::Int32, a.len()),
        Array::UInt32(a) => (Subtype::UInt32, a.len()),
        Array::Float(a) => (Subtype::Float, a.len()),
    };
    let ghost start = dst@;
    dst.push(subtype.to_u8());
    push_le(dst, len as u32, 4);
    encode_elements(dst, array);
    assert(dst@ =~= start + encoded_array(array@));
}

/// Writes a value's payload (its type tag is written apart).
pub fn encode_value(dst: &mut Vec<u8>, value: &Value)
    requires
        value@.is_encodable(),
    ensures
        final(dst)@ == old(dst)@ + encoded(value@),
{
    let ghost start = dst@;
    match value {
        Value::Character(c) => dst.push(*c),
        Value::Int8(n) => {
            let x: u32 = if *n < 0 { (*n as i32 + 0x100) as u32 } else { *n as u32 };
            push_le(dst, x, 1);
        },
        Value::UInt8(n) => dst.push(*n),
        Value::Int16(n) => {
            let x: u32 = if *n < 0 { (*n as i32 + 0x1_0000) as u32 } else { *n as u32 };
            push_le(dst, x, 2);
        },
        Value::UInt16(n) => push_le(dst, *n as u32, 2),
        Value::Int32(n) => {
            let x: u32 = if *n < 0 { (*n as i64 + 0x1_0000_0000) as u32 } else { *n as u32 };
            push_le(dst, x, 4);
        },
        Value::UInt32(n) => push_le(dst, *n, 4),
        Value::Float(n) => push_le(dst, *n, 4),
        Value::String(b) | Value::Hex(b) => {
            let mut i: usize = 0;
            while i < b.len()
                invariant
                    i <= b@.len(),
                    dst@ == start + b@.subrange(0, i as int),
                decreases b@.len() - i,
            {
                dst.push(b[i]);
                i = i + 1;
                assert(dst@ =~= start + b@.subrange(0, i as int));
            }
            dst.push(0);
            assert(dst@ =~= start + b@.push(0u8));
        },
        Value::Array(a) => encode_array(dst, a),
    }
    assert(dst@ =~= start + encoded(value@));
}

// ---------------------------------------------------------------------------------------------
// Laws

/// Equal little-endian bytes of in-range values mean equal values.
pub(crate) proof fn lemma_le_bytes_injective(x: int, y: int, w: nat)
    requires
        w == 1 || w == 2 || w == 4,
        0 <= x < span(w),
        0 <= y < span(w),
        le_bytes(x, w) == le_bytes(y, w),
    ensures
        x == y,
{
    lemma_le_value_of_bytes(x, w);
    lemma_le_value_of_bytes(y, w);
}

/// Every element bit pattern fits the subtype's width.
proof fn lemma_raw_in_range(a: ArrayView)
    ensures
        forall|j: int|
            0 <= j < a.raw().len() ==> 0 <= #[trigger] a.raw()[j] < span(width(a.subtype())),
{
}

/// Two arrays of one subtype whose encodings are equal are equal.
proof fn lemma_array_unique(a: ArrayView, b: ArrayView)
    requires
        a.subtype() == b.subtype(),
        a.raw().len() == b.raw().len(),
        elements_bytes(a.raw(), width(a.subtype())) == elements_bytes(b.raw(), width(b.subtype())),
    ensures
        a == b,
{
    let w = width(a.subtype());
    lemma_raw_in_range(a);
    lemma_raw_in_range(b);
    assert forall|j: int| 0 <= j < a.raw().len() implies a.raw()[j] == b.raw()[j] by {
        lemma_elements_bytes_at(a.raw(), w, j);
        lemma_elements_bytes_at(b.raw(), w, j);
        lemma_le_bytes_injective(a.raw()[j], b.raw()[j], w);
    }
    match (a, b) {
        (ArrayView::Int8(x), ArrayView::Int8(y)) => {
            assert forall|j: int| 0 <= j < x.len() implies x[j] == y[j] by {
                assert(a.raw()[j] == raw_i8(x[j]) && b.raw()[j] == raw_i8(y[j]));
            }
            assert(x =~= y);
        },
        (ArrayView::UInt8(x), ArrayView::UInt8(y)) => {
            assert forall|j: int| 0 <= j < x.len() implies x[j] == y[j] by {
                assert(a.raw()[j] == x[j] as int && b.raw()[j] == y[j] as int);
            }
            assert(x =~= y);
        },
        (ArrayView::Int16(x), ArrayView::Int16(y)) => {
            assert forall|j: int| 0 <= j < x.len() implies x[j] == y[j] by {
                assert(a.raw()[j] == raw_i16(x[j]) && b.raw()[j] == raw_i16(y[j]));
            }
            assert(x =~= y);
        },
        (ArrayView::UInt16(x), ArrayView::UInt16(y)) => {
            assert forall|j: int| 0 <= j < x.len() implies x[j] == y[j] by {
                assert(a.raw()[j] == x[j] as int && b.raw()[j] == y[j] as int);
            }
            assert(x =~= y);
        },
        (ArrayView::Int32(x), ArrayView::Int32(y)) => {
            assert forall|j: int| 0 <= j < x.len() implies x[j] == y[j] by {
                assert(a.raw()[j] == raw_i32(x[j]) && b.raw()[j] == raw_i32(y[j]));
            }
            assert(x =~= y);
        },
        (ArrayView::UInt32(x), ArrayView::UInt32(y)) => {
            assert forall|j: int| 0 <= j < x.len() implies x[j] == y[j] by {
                assert(a.raw()[j] == x[j] as int && b.raw()[j] == y[j] as int);
            }
            assert(x =~= y);
        },
        (ArrayView::Float(x), ArrayView::Float(y)) => {
            assert forall|j: int| 0 <= j < x.len() implies x[j] == y[j] by {
                assert(a.raw()[j] == x[j] as int && b.raw()[j] == y[j] as int);
            }
            assert(x =~= y);
        },
        _ => {},
    }
}

/// No input starts with the encodings of two different well-formed values of one type.
#[verifier::rlimit(40)]
pub proof fn lemma_encoding_unique(u: ValueView, v: ValueView, s: Seq<u8>)
    requires
        u.wf(),
        v.wf(),
        u.ty() == v.ty(),
        encoded(u).len() <= s.len(),
        encoded(v).len() <= s.len(),
        encoded(u) == s.subrange(0, encoded(u).len() as int),
        encoded(v) == s.subrange(0, encoded(v).len() as int),
    ensures
        u == v,
{
    let eu = encoded(u);
    let ev = encoded(v);
    match (u, v) {
        (ValueView::Character(x), ValueView::Character(y)) => {
            assert(eu[0] == s[0] && ev[0] == s[0]);
        },
        (ValueView::UInt8(x), ValueView::UInt8(y)) => {
            assert(eu[0] == s[0] && ev[0] == s[0]);
        },
        (ValueView::Int8(x), ValueView::Int8(y)) => {
            assert(eu =~= ev);
            lemma_le_bytes_injective(raw_i8(x), raw_i8(y), 1);
        },
        (ValueView::Int16(x), ValueView::Int16(y)) => {
            assert(eu =~= ev);
            lemma_le_bytes_injective(raw_i16(x), raw_i16(y), 2);
        },
        (ValueView::UInt16(x), ValueView::UInt16(y)) => {
            assert(eu =~= ev);
            lemma_le_bytes_injective(x as int, y as int, 2);
        },
        (ValueView::Int32(x), ValueView::Int32(y)) => {
            assert(eu =~= ev);
            lemma_le_bytes_injective(raw_i32(x), raw_i32(y), 4);
        },
        (ValueView::UInt32(x), ValueView::UInt32(y)) => {
            assert(eu =~= ev);
            lemma_le_bytes_injective(x as int, y as int, 4);
        },
        (ValueView::Float(x), ValueView::Float(y)) => {
            assert(eu =~= ev);
            lemma_le_bytes_injective(x as int, y as int, 4);
        },
        (ValueView::String(x), ValueView::String(y)) => {
            lemma_nul_terminated_unique(x, y, s);
        },
        (ValueView::Hex(x), ValueView::Hex(y)) => {
            lemma_nul_terminated_unique(x, y, s);
        },
        (ValueView::Array(a), ValueView::Array(b)) => {
            assert(eu[0] == s[0] && ev[0] == s[0]);
            assert(a.subtype() == b.subtype());
            let w = width(a.subtype());
            assert(eu.subrange(1, 5) =~= le_bytes(a.raw().len() as int, 4));
            assert(ev.subrange(1, 5) =~= le_bytes(b.raw().len() as int, 4));
            assert(eu.subrange(1, 5) =~= s.subrange(1, 5));
            assert(ev.subrange(1, 5) =~= s.subrange(1, 5));
            lemma_le_bytes_injective(a.raw().len() as int, b.raw().len() as int, 4);
            let n = 5 + a.raw().len() * w as int;
            assert(eu.subrange(5, n) =~= elements_bytes(a.raw(), w));
            assert(ev.subrange(5, n) =~= elements_bytes(b.raw(), w));
            assert(eu.subrange(5, n) =~= s.subrange(5, n));
            assert(ev.subrange(5, n) =~= s.subrange(5, n));
            lemma_array_unique(a, b);
        },
        _ => {},
    }
}

/// Two NUL-free strings whose terminated forms both start `s` are equal.
proof fn lemma_nul_terminated_unique(x: Seq<u8>, y: Seq<u8>, s: Seq<u8>)
    requires
        !x.contains(0u8),
        !y.contains(0u8),
        x.len() < s.len(),
        y.len() < s.len(),
        x.push(0u8) == s.subrange(0, x.len() + 1int),
        y.push(0u8) == s.subrange(0, y.len() + 1int),
    ensures
        x == y,
{
    if x.len() < y.len() {
        assert(x.push(0u8)[x.len() as int] == s[x.len() as int]);
        assert(y.push(0u8)[x.len() as int] == s[x.len() as int]);
        assert(y.contains(y[x.len() as int]));
    } else if y.len() < x.len() {
        assert(y.push(0u8)[y.len() as int] == s[y.len() as int]);
        assert(x.push(0u8)[y.len() as int] == s[y.len() as int]);
        assert(x.contains(x[y.len() as int]));
    } else {
        assert forall|i: int| 0 <= i < x.len() implies x[i] == y[i] by {
            assert(x.push(0u8)[i] == s[i]);
            assert(y.push(0u8)[i] == s[i]);
        }
        assert(x =~= y);
    }
}

/// Round trip: the encoding of a well-formed value, followed by any bytes, is decodable as the
/// value's type, and the only well-formed value of that type whose encoding starts it is the
/// value itself. With the contract of `decode_value`, decoding it gives back the value and
/// leaves exactly the following bytes.
#[verifier::rlimit(40)]
pub proof fn lemma_round_trip(v: ValueView, rest: Seq<u8>)
    requires
        v.wf(),
    ensures
        decodable(v.ty(), encoded(v) + rest),
        forall|u: ValueView|
            u.wf() && u.ty() == v.ty() && encoded(u).len() <= encoded(v).len() + rest.len()
                && #[trigger] encoded(u) == (encoded(v) + rest).subrange(
                0,
                encoded(u).len() as int,
            ) ==> u == v,
        (encoded(v) + rest).subrange(encoded(v).len() as int, (encoded(v) + rest).len() as int)
            == rest,
{
    let e = encoded(v);
    let s = e + rest;
    assert(s.subrange(0, e.len() as int) =~= e);
    assert(s.subrange(e.len() as int, s.len() as int) =~= rest);
    match v {
        ValueView::String(x) | ValueView::Hex(x) => {
            assert(s[x.len() as int] == 0u8);
        },
        ValueView::Array(a) => {
            let w = width(a.subtype());
            assert(s.subrange(1, 5) =~= le_bytes(a.raw().len() as int, 4));
            lemma_le_value_of_bytes(a.raw().len() as int, 4);
            assert(s[0] == subtype_code(a.subtype()));
        },
        _ => {},
    }
    assert forall|u: ValueView|
        u.wf() && u.ty() == v.ty() && encoded(u).len() <= s.len() && #[trigger] encoded(u)
            == s.subrange(
            0,
            encoded(u).len() as int,
        ) implies u == v by {
        lemma_encoding_unique(u, v, s);
    }
}

} // verus!
