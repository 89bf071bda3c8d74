use seqidx::value::{decode_array, decode_string, decode_value, encode_value, Array, DecodeError, Subtype, Type, Value};

fn t(data: &[u8], ty: Type, expected: Value) {
    let mut src = data;
    assert_eq!(decode_value(&mut src, ty), Ok(expected));
    assert!(src.is_empty());
}

#[test]
fn test_decode_value() {
    t(&[b'n'], Type::Character, Value::Character(b'n'));
    t(&[0x00], Type::Int8, Value::Int8(0));
    t(&[0x00], Type::UInt8, Value::UInt8(0));
    t(&[0x00, 0x00], Type::Int16, Value::Int16(0));
    t(&[0x00, 0x00], Type::UInt16, Value::UInt16(0));
    t(&[0x00, 0x00, 0x00, 0x00], Type::Int32, Value::Int32(0));
    t(&[0x00, 0x00, 0x00, 0x00], Type::UInt32, Value::UInt32(0));
    t(&[0x00, 0x00, 0x00, 0x00], Type::Float, Value::Float(0.0f32.to_bits()));
    t(&[b'n', b'd', b'l', b's', 0x00], Type::String, Value::String(b"ndls".to_vec()));
    t(&[b'C', b'A', b'F', b'E', 0x00], Type::Hex, Value::Hex(b"CAFE".to_vec()));
    t(
        &[b'C', 0x01, 0x00, 0x00, 0x00, 0x00],
        Type::Array,
        Value::Array(Array::UInt8(vec![0x00])),
    );
}

#[test]
fn decodes_little_endian_integers_at_width_boundaries() {
    t(&[0x80], Type::Int8, Value::Int8(i8::MIN));
    t(&[0xff], Type::Int8, Value::Int8(-1));
    t(&[0xff], Type::UInt8, Value::UInt8(u8::MAX));
    t(&[0x34, 0x12], Type::UInt16, Value::UInt16(0x1234));
    t(&[0x00, 0x80], Type::Int16, Value::Int16(i16::MIN));
    t(&[0xff, 0x7f], Type::Int16, Value::Int16(i16::MAX));
    t(&[0x78, 0x56, 0x34, 0x12], Type::UInt32, Value::UInt32(0x1234_5678));
    t(&[0x00, 0x00, 0x00, 0x80], Type::Int32, Value::Int32(i32::MIN));
    t(&[0xff, 0xff, 0xff, 0xff], Type::Int32, Value::Int32(-1));
    t(&[0x00, 0x00, 0x80, 0x3f], Type::Float, Value::Float(1.0f32.to_bits()));
}

#[test]
fn decode_leaves_the_following_bytes() {
    let data = [0x01, 0x02, 0xaa, 0xbb];
    let mut src = &data[..];
    assert_eq!(decode_value(&mut src, Type::UInt16), Ok(Value::UInt16(0x0201)));
    assert_eq!(src, &[0xaa, 0xbb]);
}

#[test]
fn string_decoding_consumes_exactly_through_the_first_nul() {
    let data = [b'a', b'b', 0x00, b'c', 0x00];
    let mut src = &data[..];
    assert_eq!(decode_string(&mut src), Ok(b"ab".to_vec()));
    assert_eq!(src, &[b'c', 0x00]);

    let data = [0x00, 0x07];
    let mut src = &data[..];
    assert_eq!(decode_value(&mut src, Type::Hex), Ok(Value::Hex(Vec::new())));
    assert_eq!(src, &[0x07]);
}

#[test]
fn string_without_nul_is_malformed() {
    let mut src = &b"ndls"[..];
    assert_eq!(decode_value(&mut src, Type::String), Err(DecodeError::MissingNulTerminator));
    let mut src = &[][..];
    assert_eq!(decode_value(&mut src, Type::Hex), Err(DecodeError::MissingNulTerminator));
}

#[test]
fn truncated_values_are_malformed() {
    let mut src = &[0x01][..];
    assert_eq!(decode_value(&mut src, Type::Int16), Err(DecodeError::UnexpectedEof));
    let mut src = &[0x01, 0x02, 0x03][..];
    assert_eq!(decode_value(&mut src, Type::Float), Err(DecodeError::UnexpectedEof));
    let mut src = &[][..];
    assert_eq!(decode_value(&mut src, Type::Character), Err(DecodeError::UnexpectedEof));
    // count says two elements, one is present
    let mut src = &[b's', 0x02, 0x00, 0x00, 0x00, 0x01, 0x00][..];
    assert_eq!(decode_value(&mut src, Type::Array), Err(DecodeError::UnexpectedEof));
    let mut src = &[b'c', 0x01, 0x00][..];
    assert_eq!(decode_array(&mut src), Err(DecodeError::UnexpectedEof));
}

#[test]
fn unknown_array_subtype_is_malformed() {
    let mut src = &[b'x', 0x00, 0x00, 0x00, 0x00][..];
    assert_eq!(decode_value(&mut src, Type::Array), Err(DecodeError::InvalidSubtype(b'x')));
}

#[test]
fn empty_array_is_valid() {
    t(&[b'i', 0x00, 0x00, 0x00, 0x00], Type::Array, Value::Array(Array::Int32(Vec::new())));
}

#[test]
fn decodes_arrays_of_each_subtype() {
    t(&[b'c', 0x02, 0, 0, 0, 0x01, 0xfe], Type::Array, Value::Array(Array::Int8(vec![1, -2])));
    t(&[b's', 0x01, 0, 0, 0, 0xf3, 0xff], Type::Array, Value::Array(Array::Int16(vec![-13])));
    t(&[b'S', 0x01, 0, 0, 0, 0x22, 0x00], Type::Array, Value::Array(Array::UInt16(vec![34])));
    t(
        &[b'I', 0x01, 0, 0, 0, 0xe9, 0x00, 0x00, 0x00],
        Type::Array,
        Value::Array(Array::UInt32(vec![233])),
    );
    t(
        &[b'f', 0x01, 0, 0, 0, 0x00, 0x00, 0x80, 0x3f],
        Type::Array,
        Value::Array(Array::Float(vec![1.0f32.to_bits()])),
    );
}

fn round_trip(v: Value) {
    let mut buf = vec![0xaa];
    encode_value(&mut buf, &v);
    let ty = match &v {
        Value::Character(_) => Type::Character,
        Value::Int8(_) => Type::Int8,
        Value::UInt8(_) => Type::UInt8,
        Value::Int16(_) => Type::Int16,
        Value::UInt16(_) => Type::UInt16,
        Value::Int32(_) => Type::Int32,
        Value::UInt32(_) => Type::UInt32,
        Value::Float(_) => Type::Float,
        Value::String(_) => Type::String,
        Value::Hex(_) => Type::Hex,
        Value::Array(_) => Type::Array,
    };
    buf.push(0x55);
    let mut src = &buf[1..];
    assert_eq!(decode_value(&mut src, ty), Ok(v));
    assert_eq!(src, &[0x55]);
}

#[test]
fn round_trips_every_variant() {
    round_trip(Value::Character(b'A'));
    round_trip(Value::Int8(i8::MIN));
    round_trip(Value::Int8(i8::MAX));
    round_trip(Value::UInt8(u8::MAX));
    round_trip(Value::Int16(i16::MIN));
    round_trip(Value::Int16(-1));
    round_trip(Value::UInt16(u16::MAX));
    round_trip(Value::Int32(i32::MIN));
    round_trip(Value::Int32(i32::MAX));
    round_trip(Value::UInt32(u32::MAX));
    round_trip(Value::Float((-2.5f32).to_bits()));
    round_trip(Value::String(b"noodles".to_vec()));
    round_trip(Value::Hex(b"CAFE".to_vec()));
    round_trip(Value::String(Vec::new()));
    round_trip(Value::Array(Array::Int8(Vec::new())));
    round_trip(Value::Array(Array::UInt8(vec![7])));
    round_trip(Value::Array(Array::Int16(vec![i16::MIN, 0, i16::MAX])));
    round_trip(Value::Array(Array::UInt16(vec![0, u16::MAX])));
    round_trip(Value::Array(Array::Int32(vec![i32::MIN, -89, 55])));
    round_trip(Value::Array(Array::UInt32(vec![144, u32::MAX])));
    round_trip(Value::Array(Array::Float(vec![0.0f32.to_bits(), 1.0f32.to_bits()])));
}

#[test]
fn encodes_exact_bytes() {
    let mut buf = Vec::new();
    encode_value(&mut buf, &Value::Int16(-2));
    assert_eq!(buf, [0xfe, 0xff]);
    let mut buf = Vec::new();
    encode_value(&mut buf, &Value::String(b"ab".to_vec()));
    assert_eq!(buf, [b'a', b'b', 0x00]);
    let mut buf = Vec::new();
    encode_value(&mut buf, &Value::Array(Array::UInt16(vec![0x0102, 3])));
    assert_eq!(buf, [b'S', 0x02, 0x00, 0x00, 0x00, 0x02, 0x01, 0x03, 0x00]);
}

#[test]
fn type_tags() {
    assert_eq!(Type::from_u8(b'Z'), Some(Type::String));
    assert_eq!(Type::from_u8(b'B'), Some(Type::Array));
    assert_eq!(Type::from_u8(b'?'), None);
    assert_eq!(Type::Hex.to_u8(), b'H');
    assert_eq!(Subtype::from_u8(b'f'), Some(Subtype::Float));
    assert_eq!(Subtype::from_u8(b'Z'), None);
    assert_eq!(Subtype::Int16.to_u8(), b's');
    assert_eq!(Subtype::UInt32.width(), 4);
}

#[test]
fn value_types_and_integers() {
    assert_eq!(Value::Int32(0).ty(), Type::Int32);
    assert_eq!(Value::String(b"noodles".to_vec()).ty(), Type::String);
    assert_eq!(Value::Array(Array::UInt8(vec![0])).ty(), Type::Array);
    assert_eq!(Value::Array(Array::UInt8(vec![0])).subtype(), Some(Subtype::UInt8));
    assert_eq!(Value::Array(Array::Float(vec![0])).subtype(), Some(Subtype::Float));
    assert_eq!(Value::Int32(0).subtype(), None);
    assert_eq!(Value::Int32(0).as_int(), Some(0));
    assert_eq!(Value::UInt32(u32::MAX).as_int(), Some(4294967295));
    assert_eq!(Value::Int8(-3).as_int(), Some(-3));
    assert_eq!(Value::Character(b'n').as_int(), None);
    assert!(Value::UInt16(1).is_int());
    assert!(!Value::Float(0).is_int());
}

#[test]
fn integers_take_the_smallest_type() {
    assert_eq!(Value::from_i32(i32::MIN), Value::Int32(i32::MIN));
    assert_eq!(Value::from_i32(-32769), Value::Int32(-32769));
    assert_eq!(Value::from_i32(-32768), Value::Int16(-32768));
    assert_eq!(Value::from_i32(-129), Value::Int16(-129));
    assert_eq!(Value::from_i32(-128), Value::Int8(-128));
    assert_eq!(Value::from_i32(-1), Value::Int8(-1));
    assert_eq!(Value::from_i32(0), Value::UInt8(0));
    assert_eq!(Value::from_i32(255), Value::UInt8(255));
    assert_eq!(Value::from_i32(256), Value::UInt16(256));
    assert_eq!(Value::from_i32(65535), Value::UInt16(65535));
    assert_eq!(Value::from_i32(65536), Value::UInt32(65536));
    assert_eq!(Value::from_i32(i32::MAX), Value::UInt32(i32::MAX as u32));
    assert_eq!(Value::from_u32(u32::MAX), Value::UInt32(u32::MAX));
    assert_eq!(Value::from_u32(255), Value::UInt8(255));
}
