//! Field values written as text, as in SAM optional fields: parsing a value of a given type
//! from its text.
//!
//! A character is one printable character; an integer is decimal with an optional sign; a
//! string holds printable characters or spaces; a hex string holds an even number of the
//! digits `0-9A-F`; an array is its subtype character followed by its elements, all separated
//! by commas. Floats are read by the caller: this library holds no floating-point code.

use vstd::prelude::*;
use vstd::string::*;
use crate::value::{Array, ArrayView, Subtype, Type, Value, ValueView};

verus! {

/// An error returned when a value written as text fails to parse.
#[derive(Clone, Copy, Debug, Eq, PartialEq, Structural)]
pub enum ParseError {
    /// The input is invalid.
    Invalid,
    /// The type cannot be written as text.
    UnsupportedType(Type),
    /// The character value is invalid.
    InvalidCharValue,
    /// The integer value is invalid.
    InvalidIntValue,
    /// The floating-point value is invalid.
    InvalidFloatValue,
    /// The string value is invalid.
    InvalidStringValue,
    /// The hex value is invalid.
    InvalidHexValue,
    /// The array subtype is missing.
    MissingSubtype,
    /// The array subtype is invalid.
    InvalidSubtype,
}

/// Whether a character is an ASCII digit.
pub open spec fn is_digit(c: char) -> bool {
    0x30 <= (c as u32) <= 0x39
}

/// The value of a run of decimal digits.
pub open spec fn digits_value(d: Seq<char>) -> int
    decreases d.len(),
{
    if d.len() == 0 {
        0
    } else {
        digits_value(d.drop_last()) * 10 + ((d.last() as u32) as int - 0x30)
    }
}

/// The integer that a text names: an optional `+` or `-`, then one or more decimal digits.
pub open spec fn signed_decimal(s: Seq<char>) -> Option<int> {
    let signed = s.len() > 0 && (s[0] == '-' || s[0] == '+');
    let d = if signed {
        s.drop_first()
    } else {
        s
    };
    if d.len() > 0 && forall|i: int| 0 <= i < d.len() ==> is_digit(#[trigger] d[i]) {
        Some(
            if s[0] == '-' {
                -digits_value(d)
            } else {
                digits_value(d)
            },
        )
    } else {
        None
    }
}

/// The integer that a text names, where it lies in `[lo, hi]`.
pub open spec fn decimal_in(s: Seq<char>, lo: int, hi: int) -> Option<int> {
    match signed_decimal(s) {
        Some(n) => if lo <= n <= hi {
            Some(n)
        } else {
            None
        },
        None => None,
    }
}

/// Relies on `str::parse::<i64>`: it accepts an optional `+` or `-` followed by one or more
/// ASCII digits, whose value must fit in 64 bits, and gives that value.
#[verifier::external_body]
fn parse_i64(s: &str) -> (r: Option<i64>)
    ensures
        r matches Some(n) ==> decimal_in(s@, i64::MIN as int, i64::MAX as int) == Some(n as int),
        r is None ==> decimal_in(s@, i64::MIN as int, i64::MAX as int) is None,
{
    s.parse::<i64>().ok()
}

/// Parses an integer in `[lo, hi]`.
fn parse_int(s: &str, lo: i64, hi: i64) -> (r: Result<i64, ParseError>)
    ensures
        r matches Ok(n) ==> decimal_in(s@, lo as int, hi as int) == Some(n as int),
        r is Err ==> decimal_in(s@, lo as int, hi as int) is None && r == Err::<i64, ParseError>(
            ParseError::InvalidIntValue,
        ),
{
    match parse_i64(s) {
        Some(n) => if lo <= n && n <= hi {
            Ok(n)
        } else {
            Err(ParseError::InvalidIntValue)
        },
        None => Err(ParseError::InvalidIntValue),
    }
}

/// Parses an 8-bit integer.
pub fn parse_i8(s: &str) -> (r: Result<i8, ParseError>)
    ensures
        r matches Ok(n) ==> decimal_in(s@, i8::MIN as int, i8::MAX as int) == Some(n as int),
        r is Err ==> decimal_in(s@, i8::MIN as int, i8::MAX as int) is None,
{
    match parse_int(s, -0x80, 0x7f) {
        Ok(n) => Ok(n as i8),
        Err(e) => Err(e),
    }
}

/// Parses an 8-bit unsigned integer.
pub fn parse_u8(s: &str) -> (r: Result<u8, ParseError>)
    ensures
        r matches Ok(n) ==> decimal_in(s@, 0, u8::MAX as int) == Some(n as int),
        r is Err ==> decimal_in(s@, 0, u8::MAX as int) is None,
{
    match parse_int(s, 0, 0xff) {
        Ok(n) => Ok(n as u8),
        Err(e) => Err(e),
    }
}

/// Parses a 16-bit integer.
pub fn parse_i16(s: &str) -> (r: Result<i16, ParseError>)
    ensures
        r matches Ok(n) ==> decimal_in(s@, i16::MIN as int, i16::MAX as int) == Some(n as int),
        r is Err ==> decimal_in(s@, i16::MIN as int, i16::MAX as int) is None,
{
    match parse_int(s, -0x8000, 0x7fff) {
        Ok(n) => Ok(n as i16),
        Err(e) => Err(e),
    }
}

/// Parses a 16-bit unsigned integer.
pub fn parse_u16(s: &str) -> (r: Result<u16, ParseError>)
    ensures
        r matches Ok(n) ==> decimal_in(s@, 0, u16::MAX as int) == Some(n as int),
        r is Err ==> decimal_in(s@, 0, u16::MAX as int) is None,
{
    match parse_int(s, 0, 0xffff) {
        Ok(n) => Ok(n as u16),
        Err(e) => Err(e),
    }
}

/// Parses a 32-bit integer.
pub fn parse_i32(s: &str) -> (r: Result<i32, ParseError>)
    ensures
        r matches Ok(n) ==> decimal_in(s@, i32::MIN as int, i32::MAX as int) == Some(n as int),
        r is Err ==> decimal_in(s@, i32::MIN as int, i32::MAX as int) is None,
{
    match parse_int(s, -0x8000_0000, 0x7fff_ffff) {
        Ok(n) => Ok(n as i32),
        Err(e) => Err(e),
    }
}

/// Parses a 32-bit unsigned integer.
pub fn parse_u32(s: &str) -> (r: Result<u32, ParseError>)
    ensures
        r matches Ok(n) ==> decimal_in(s@, 0, u32::MAX as int) == Some(n as int),
        r is Err ==> decimal_in(s@, 0, u32::MAX as int) is None,
{
    match parse_int(s, 0, 0xffff_ffff) {
        Ok(n) => Ok(n as u32),
        Err(e) => Err(e),
    }
}

/// Whether a character may be a character value: a printable ASCII character other than
/// space.
pub open spec fn valid_char(c: char) -> bool {
    0x21 <= (c as u32) <= 0x7e
}

/// Whether a character may stand in a string value: a printable ASCII character or space.
pub open spec fn valid_string_char(c: char) -> bool {
    0x20 <= (c as u32) <= 0x7e
}

/// Whether a character may stand in a hex value: `0-9` or `A-F`.
pub open spec fn valid_hex_char(c: char) -> bool {
    (0x30 <= (c as u32) <= 0x39) || (0x41 <= (c as u32) <= 0x46)
}

/// The bytes of an ASCII text.
pub open spec fn ascii_bytes(s: Seq<char>) -> Seq<u8> {
    Seq::new(s.len(), |i: int| (s[i] as u32) as u8)
}

/// Whether `c` is a valid character value.
pub fn is_valid_char(c: char) -> (r: bool)
    ensures
        r == valid_char(c),
{
    '!' <= c && c <= '~'
}

/// Parses a character value: the first character of the text, which must be valid.
pub fn parse_char(s: &str) -> (r: Result<char, ParseError>)
    ensures
        r is Ok <==> s@.len() > 0 && valid_char(s@[0]),
        r matches Ok(c) ==> c == s@[0],
        r is Err ==> r == Err::<char, ParseError>(ParseError::InvalidCharValue),
{
    if s.unicode_len() > 0 {
        let c = s.get_char(0);
        if is_valid_char(c) {
            return Ok(c);
        }
    }
    Err(ParseError::InvalidCharValue)
}

/// Whether `c` may stand in a string value.
pub fn is_valid_string_char(c: char) -> (r: bool)
    ensures
        r == valid_string_char(c),
{
    ' ' <= c && c <= '~'
}

/// Whether every character of `s` may stand in a string value.
pub fn is_valid_string(s: &str) -> (r: bool)
    ensures
        r == forall|i: int| 0 <= i < s@.len() ==> valid_string_char(#[trigger] s@[i]),
{
    let n = s.unicode_len();
    let mut i: usize = 0;
    while i < n
        invariant
            n == s@.len(),
            i <= n,
            forall|k: int| 0 <= k < i ==> valid_string_char(#[trigger] s@[k]),
        decreases n - i,
    {
        if !is_valid_string_char(s.get_char(i)) {
            return false;
        }
        i = i + 1;
    }
    true
}

/// The bytes of a text whose characters are all ASCII.
fn ascii_to_bytes(s: &str) -> (r: Vec<u8>)
    requires
        forall|i: int| 0 <= i < s@.len() ==> (#[trigger] s@[i] as u32) < 0x80,
    ensures
        r@ == ascii_bytes(s@),
{
    let n = s.unicode_len();
    let mut out: Vec<u8> = Vec::new();
    let mut i: usize = 0;
    while i < n
        invariant
            n == s@.len(),
            i <= n,
            forall|k: int| 0 <= k < s@.len() ==> (#[trigger] s@[k] as u32) < 0x80,
            out@ == ascii_bytes(s@.subrange(0, i as int)),
        decreases n - i,
    {
        let c = s.get_char(i);
        out.push(c as u32 as u8);
        i = i + 1;
        assert(out@ =~= ascii_bytes(s@.subrange(0, i as int)));
    }
    assert(s@.subrange(0, n as int) =~= s@);
    out
}

/// Parses a string value.
pub fn parse_string(s: &str) -> (r: Result<Vec<u8>, ParseError>)
    ensures
        r is Ok <==> forall|i: int| 0 <= i < s@.len() ==> valid_string_char(#[trigger] s@[i]),
        r matches Ok(b) ==> b@ == ascii_bytes(s@),
        r is Err ==> r == Err::<Vec<u8>, ParseError>(ParseError::InvalidStringValue),
{
    if is_valid_string(s) {
        Ok(ascii_to_bytes(s))
    } else {
        Err(ParseError::InvalidStringValue)
    }
}

/// The character value `c`, if it is a valid one.
pub fn value_from_char(c: char) -> (r: Result<Value, ParseError>)
    ensures
        r is Ok <==> valid_char(c),
        r matches Ok(v) ==> v@ == ValueView::Character((c as u32) as u8),
        r is Err ==> r == Err::<Value, ParseError>(ParseError::InvalidCharValue),
{
    if is_valid_char(c) {
        Ok(Value::Character(c as u32 as u8))
    } else {
        Err(ParseError::InvalidCharValue)
    }
}

/// The string value `s`, if every character may stand in one.
pub fn value_from_string(s: String) -> (r: Result<Value, ParseError>)
    ensures
        r is Ok <==> forall|i: int| 0 <= i < s@.len() ==> valid_string_char(#[trigger] s@[i]),
        r matches Ok(v) ==> v@ == ValueView::String(ascii_bytes(s@)),
        r is Err ==> r == Err::<Value, ParseError>(ParseError::InvalidStringValue),
{
    match parse_string(s.as_str()) {
        Ok(b) => Ok(Value::String(b)),
        Err(e) => Err(e),
    }
}

/// Whether `c` may stand in a hex value.
pub fn is_valid_hex_char(c: char) -> (r: bool)
    ensures
        r == valid_hex_char(c),
{
    ('0' <= c && c <= '9') || ('A' <= c && c <= 'F')
}

/// Parses a hex value: an even number of hex digits.
pub fn parse_hex(s: &str) -> (r: Result<Vec<u8>, ParseError>)
    ensures
        r is Ok <==> s@.len() % 2 == 0 && forall|i: int|
            0 <= i < s@.len() ==> valid_hex_char(#[trigger] s@[i]),
        r matches Ok(b) ==> b@ == ascii_bytes(s@),
        r is Err ==> r == Err::<Vec<u8>, ParseError>(ParseError::InvalidHexValue),
{
    let n = s.unicode_len();
    if n % 2 != 0 {
        return Err(ParseError::InvalidHexValue);
    }
    let mut i: usize = 0;
    while i < n
        invariant
            n == s@.len(),
            i <= n,
            forall|k: int| 0 <= k < i ==> valid_hex_char(#[trigger] s@[k]),
        decreases n - i,
    {
        if !is_valid_hex_char(s.get_char(i)) {
            return Err(ParseError::InvalidHexValue);
        }
        i = i + 1;
    }
    Ok(ascii_to_bytes(s))
}

/// The position of the first comma in `s`, or its length.
pub open spec fn comma_position(s: Seq<char>) -> nat
    decreases s.len(),
{
    if s.len() == 0 || s[0] == ',' {
        0
    } else {
        1 + comma_position(s.drop_first())
    }
}

proof fn lemma_comma_position_bound(s: Seq<char>)
    ensures
        comma_position(s) <= s.len(),
        comma_position(s) < s.len() ==> s[comma_position(s) as int] == ',',
        forall|k: int| 0 <= k < comma_position(s) ==> s[k] != ',',
    decreases s.len(),
{
    if s.len() > 0 && s[0] != ',' {
        lemma_comma_position_bound(s.drop_first());
        assert forall|k: int| 0 <= k < comma_position(s) implies s[k] != ',' by {
            if k > 0 {
                assert(s[k] == s.drop_first()[k - 1]);
            }
        }
    }
}

/// The comma-separated parts of a text.
pub open spec fn split_commas(s: Seq<char>) -> Seq<Seq<char>>
    decreases s.len(),
{
    let i = comma_position(s) as int;
    if i >= s.len() {
        seq![s]
    } else {
        seq![s.subrange(0, i)] + split_commas(s.subrange(i + 1, s.len() as int))
    }
}

/// The array subtype that a text names: exactly one of `c C s S i I f`.
pub open spec fn subtype_of_text(t: Seq<char>) -> Option<Subtype> {
    if t.len() != 1 {
        None
    } else if t[0] == 'c' {
        Some(Subtype::Int8)
    } else if t[0] == 'C' {
        Some(Subtype::UInt8)
    } else if t[0] == 's' {
        Some(Subtype::Int16)
    } else if t[0] == 'S' {
        Some(Subtype::UInt16)
    } else if t[0] == 'i' {
        Some(Subtype::Int32)
    } else if t[0] == 'I' {
        Some(Subtype::UInt32)
    } else if t[0] == 'f' {
        Some(Subtype::Float)
    } else {
        None
    }
}

/// The range of the integer elements of a subtype.
pub open spec fn subtype_range(st: Subtype) -> (int, int) {
    match st {
        Subtype::Int8 => (-0x80, 0x7f),
        Subtype::UInt8 => (0, 0xff),
        Subtype::Int16 => (-0x8000, 0x7fff),
        Subtype::UInt16 => (0, 0xffff),
        Subtype::Int32 => (-0x8000_0000, 0x7fff_ffff),
        _ => (0, 0xffff_ffff),
    }
}

/// The elements of an array: integers as themselves, floats as their bit patterns.
pub open spec fn array_values(a: ArrayView) -> Seq<int> {
    match a {
        ArrayView::Int8(x) => Seq::new(x.len(), |i: int| x[i] as int),
        ArrayView::UInt8(x) => Seq::new(x.len(), |i: int| x[i] as int),
        ArrayView::Int16(x) => Seq::new(x.len(), |i: int| x[i] as int),
        ArrayView::UInt16(x) => Seq::new(x.len(), |i: int| x[i] as int),
        ArrayView::Int32(x) => Seq::new(x.len(), |i: int| x[i] as int),
        ArrayView::UInt32(x) => Seq::new(x.len(), |i: int| x[i] as int),
        ArrayView::Float(x) => Seq::new(x.len(), |i: int| x[i] as int),
    }
}

/// The value of an integer element text of subtype `st`, where it is valid.
pub open spec fn element_value(st: Subtype, e: Seq<char>) -> Option<int> {
    decimal_in(e, subtype_range(st).0, subtype_range(st).1)
}

/// The position of the first comma at or after `from`, or `n`.
fn find_comma(s: &str, from: usize, n: usize) -> (r: usize)
    requires
        n == s@.len(),
        from <= n,
    ensures
        r == from + comma_position(s@.subrange(from as int, n as int)),
        from <= r <= n,
{
    let mut i = from;
    proof {
        lemma_comma_position_bound(s@.subrange(from as int, n as int));
    }
    while i < n && s.get_char(i) != ','
        invariant
            n == s@.len(),
            from <= i <= n,
            forall|k: int| from <= k < i ==> s@[k] != ',',
            i <= from + comma_position(s@.subrange(from as int, n as int)),
            comma_position(s@.subrange(from as int, n as int)) <= n - from,
            from + comma_position(s@.subrange(from as int, n as int)) < n ==> s@[from
                + comma_position(s@.subrange(from as int, n as int))] == ',',
        decreases n - i,
    {
        i = i + 1;
    }
    proof {
        let t = s@.subrange(from as int, n as int);
        lemma_comma_position_bound(t);
        if i < from + comma_position(t) {
            assert(t[i - from] == s@[i as int]);
        }
    }
    i
}

/// The array of subtype `st` whose elements are `ints`.
fn ints_to_array(st: Subtype, ints: &Vec<i64>) -> (a: Array)
    requires
        st != Subtype::Float,
        forall|k: int|
            0 <= k < ints@.len() ==> subtype_range(st).0 <= #[trigger] ints@[k]
                <= subtype_range(st).1,
    ensures
        a@.subtype() == st,
        array_values(a@) == Seq::new(ints@.len(), |k: int| ints@[k] as int),
{
    match st {
        Subtype::Int8 => {
            let mut out: Vec<i8> = Vec::new();
            let mut i: usize = 0;
            while i < ints.len()
                invariant
                    i <= ints@.len(),
                    out@.len() == i,
                    forall|k: int| 0 <= k < ints@.len() ==> -0x80 <= #[trigger] ints@[k] <= 0x7f,
                    forall|k: int| 0 <= k < i ==> #[trigger] out@[k] as int == ints@[k] as int,
                decreases ints@.len() - i,
            {
                out.push(ints[i] as i8);
                i = i + 1;
            }
            let a = Array::Int8(out);
            assert(array_values(a@) =~= Seq::new(ints@.len(), |k: int| ints@[k] as int));
            a
        },
        Subtype::UInt8 => {
            let mut out: Vec<u8> = Vec::new();
            let mut i: usize = 0;
            while i < ints.len()
                invariant
                    i <= ints@.len(),
                    out@.len() == i,
                    forall|k: int| 0 <= k < ints@.len() ==> 0 <= #[trigger] ints@[k] <= 0xff,
                    forall|k: int| 0 <= k < i ==> #[trigger] out@[k] as int == ints@[k] as int,
                decreases ints@.len() - i,
            {
                out.push(ints[i] as u8);
                i = i + 1;
            }
            let a = Array::UInt8(out);
            assert(array_values(a@) =~= Seq::new(ints@.len(), |k: int| ints@[k] as int));
            a
        },
        Subtype::Int16 => {
            let mut out: Vec<i16> = Vec::new();
            let mut i: usize = 0;
            while i < ints.len()
                invariant
                    i <= ints@.len(),
                    out@.len() == i,
                    forall|k: int| 0 <= k < ints@.len() ==> -0x8000 <= #[trigger] ints@[k] <= 0x7fff,
                    forall|k: int| 0 <= k < i ==> #[trigger] out@[k] as int == ints@[k] as int,
                decreases ints@.len() - i,
            {
                out.push(ints[i] as i16);
                i = i + 1;
            }
            let a = Array::Int16(out);
            assert(array_values(a@) =~= Seq::new(ints@.len(), |k: int| ints@[k] as int));
            a
        },
        Subtype::UInt16 => {
            let mut out: Vec<u16> = Vec::new();
            let mut i: usize = 0;
            while i < ints.len()
                invariant
                    i <= ints@.len(),
                    out@.len() == i,
                    forall|k: int| 0 <= k < ints@.len() ==> 0 <= #[trigger] ints@[k] <= 0xffff,
                    forall|k: int| 0 <= k < i ==> #[trigger] out@[k] as int == ints@[k] as int,
                decreases ints@.len() - i,
            {
                out.push(ints[i] as u16);
                i = i + 1;
            }
            let a = Array::UInt16(out);
            assert(array_values(a@) =~= Seq::new(ints@.len(), |k: int| ints@[k] as int));
            a
        },
        Subtype::Int32 => {
            let mut out: Vec<i32> = Vec::new();
            let mut i: usize = 0;
            while i < ints.len()
                invariant
                    i <= ints@.len(),
                    out@.len() == i,
                    forall|k: int| 0 <= k < ints@.len() ==> -0x8000_0000 <= #[trigger] ints@[k] <= 0x7fff_ffff,
                    forall|k: int| 0 <= k < i ==> #[trigger] out@[k] as int == ints@[k] as int,
                decreases ints@.len() - i,
            {
                out.push(ints[i] as i32);
                i = i + 1;
            }
            let a = Array::Int32(out);
            assert(array_values(a@) =~= Seq::new(ints@.len(), |k: int| ints@[k] as int));
            a
        },
        Subtype::UInt32 => {
            let mut out: Vec<u32> = Vec::new();
            let mut i: usize = 0;
            while i < ints.len()
                invariant
                    i <= ints@.len(),
                    out@.len() == i,
                    forall|k: int| 0 <= k < ints@.len() ==> 0 <= #[trigger] ints@[k] <= 0xffff_ffff,
                    forall|k: int| 0 <= k < i ==> #[trigger] out@[k] as int == ints@[k] as int,
                decreases ints@.len() - i,
            {
                out.push(ints[i] as u32);
                i = i + 1;
            }
            let a = Array::UInt32(out);
            assert(array_values(a@) =~= Seq::new(ints@.len(), |k: int| ints@[k] as int));
            a
        },
        Subtype::Float => Array::Float(Vec::new()),
    }
}

/// The views of a list of strings.
pub open spec fn texts(v: Seq<String>) -> Seq<Seq<char>> {
    Seq::new(v.len(), |i: int| v[i]@)
}

/// Splits the text of an array value into its subtype and the texts of its elements.
#[verifier::rlimit(40)]
pub fn split_array(s: &str) -> (r: Result<(Subtype, Vec<String>), ParseError>)
    ensures
        match subtype_of_text(split_commas(s@)[0]) {
            None => r == Err::<(Subtype, Vec<String>), ParseError>(ParseError::InvalidSubtype),
            Some(st) => (r matches Ok((t, es)) && t == st && texts(es@) == split_commas(
                s@,
            ).drop_first()),
        },
{
    let n = s.unicode_len();
    let i = find_comma(s, 0, n);
    let ghost parts = split_commas(s@);
    proof {
        assert(s@.subrange(0, n as int) =~= s@);
        assert(parts[0] == s@.subrange(0, i as int));
    }
    let head = s.substring_char(0, i);
    let st = if head.unicode_len() == 1 {
        let c = head.get_char(0);
        if c == 'c' {
            Subtype::Int8
        } else if c == 'C' {
            Subtype::UInt8
        } else if c == 's' {
            Subtype::Int16
        } else if c == 'S' {
            Subtype::UInt16
        } else if c == 'i' {
            Subtype::Int32
        } else if c == 'I' {
            Subtype::UInt32
        } else if c == 'f' {
            Subtype::Float
        } else {
            return Err(ParseError::InvalidSubtype);
        }
    } else {
        return Err(ParseError::InvalidSubtype);
    };
    assert(subtype_of_text(parts[0]) == Some(st));
    let ghost es = parts.drop_first();
    let mut elements: Vec<String> = Vec::new();
    if i < n {
        let mut start = i + 1;
        proof {
            assert(es =~= split_commas(s@.subrange(start as int, n as int)));
        }
        loop
            invariant_except_break
                elements@.len() + split_commas(s@.subrange(start as int, n as int)).len()
                    == es.len(),
                split_commas(s@.subrange(start as int, n as int)) == es.subrange(
                    elements@.len() as int,
                    es.len() as int,
                ),
                texts(elements@) == es.subrange(0, elements@.len() as int),
            invariant
                n == s@.len(),
                i < start <= n,
                es == parts.drop_first(),
            ensures
                texts(elements@) == es,
            decreases n - start,
        {
            let j = find_comma(s, start, n);
            let ghost t = s@.subrange(start as int, n as int);
            let ghost done = elements@.len() as int;
            proof {
                lemma_comma_position_bound(t);
                assert(t.subrange(0, j - start) =~= s@.subrange(start as int, j as int));
                if j < n {
                    assert(t.subrange(j - start + 1, t.len() as int) =~= s@.subrange(
                        j + 1,
                        n as int,
                    ));
                }
                assert(split_commas(t)[0] == s@.subrange(start as int, j as int));
                assert(es[done] == split_commas(t)[0]);
            }
            let part = String::from_str(s.substring_char(start, j));
            let ghost before = elements@;
            elements.push(part);
            proof {
                assert(texts(elements@) =~= texts(before).push(es[done]));
                assert(es.subrange(0, done + 1) =~= es.subrange(0, done).push(es[done]));
                if j < n {
                    let l = split_commas(t);
                    assert(l =~= seq![l[0]] + split_commas(s@.subrange(j + 1, n as int)));
                    assert(l.subrange(1, l.len() as int) =~= split_commas(
                        s@.subrange(j + 1, n as int),
                    ));
                    assert(es.subrange(done, es.len() as int).subrange(1, es.len() - done)
                        =~= es.subrange(done + 1, es.len() as int));
                } else {
                    assert(split_commas(t).len() == 1);
                    assert(es.subrange(0, es.len() as int) =~= es);
                    assert(texts(elements@) =~= es);
                }
            }
            if j == n {
                break;
            }
            start = j + 1;
        }
    } else {
        assert(parts.len() == 1);
        assert(texts(elements@) =~= es);
    }
    Ok((st, elements))
}

/// Parses the element texts of an integer array of subtype `st`; each must be a decimal
/// integer in the subtype's range.
pub fn parse_int_elements(st: Subtype, elements: &Vec<String>) -> (r: Result<Array, ParseError>)
    requires
        st != Subtype::Float,
    ensures
        r is Ok <==> forall|k: int|
            0 <= k < elements@.len() ==> element_value(st, #[trigger] elements@[k]@) is Some,
        r matches Ok(a) ==> a@.subtype() == st && array_values(a@) == Seq::new(
            elements@.len(),
            |k: int| element_value(st, elements@[k]@)->0,
        ),
        r is Err ==> r == Err::<Array, ParseError>(ParseError::InvalidIntValue),
{
    let (lo, hi): (i64, i64) = match st {
        Subtype::Int8 => (-0x80, 0x7f),
        Subtype::UInt8 => (0, 0xff),
        Subtype::Int16 => (-0x8000, 0x7fff),
        Subtype::UInt16 => (0, 0xffff),
        Subtype::Int32 => (-0x8000_0000, 0x7fff_ffff),
        _ => (0, 0xffff_ffff),
    };
    let mut ints: Vec<i64> = Vec::new();
    let mut k: usize = 0;
    while k < elements.len()
        invariant
            (lo as int, hi as int) == subtype_range(st),
            k <= elements@.len(),
            ints@.len() == k,
            forall|m: int|
                0 <= m < k ==> element_value(st, #[trigger] elements@[m]@) == Some(ints@[m] as int),
            forall|m: int| 0 <= m < k ==> lo <= #[trigger] ints@[m] <= hi,
        decreases elements@.len() - k,
    {
        match parse_int(elements[k].as_str(), lo, hi) {
            Ok(x) => ints.push(x),
            Err(e) => return Err(e),
        }
        k = k + 1;
    }
    let a = ints_to_array(st, &ints);
    assert(array_values(a@) =~= Seq::new(
        elements@.len(),
        |m: int| element_value(st, elements@[m]@)->0,
    ));
    Ok(a)
}

} // verus!
