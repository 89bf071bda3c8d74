use seqidx::value::{Array, Subtype, Type, Value};

#[test]
fn test_ty() {
    assert_eq!(Value::Character(b'n').ty(), Type::Character);
    assert_eq!(Value::Int32(0).ty(), Type::Int32);
    assert_eq!(Value::Float(0.0f32.to_bits()).ty(), Type::Float);
    assert_eq!(Value::String(b"noodles".to_vec()).ty(), Type::String);
    assert_eq!(Value::Hex(b"CAFE".to_vec()).ty(), Type::Hex);
    assert_eq!(Value::Array(Array::Int8(vec![0])).ty(), Type::Array);
    assert_eq!(Value::Array(Array::UInt8(vec![0])).ty(), Type::Array);
    assert_eq!(Value::Array(Array::Int16(vec![0])).ty(), Type::Array);
    assert_eq!(Value::Array(Array::UInt16(vec![0])).ty(), Type::Array);
    assert_eq!(Value::Array(Array::Int32(vec![0])).ty(), Type::Array);
    assert_eq!(Value::Array(Array::UInt32(vec![0])).ty(), Type::Array);
    assert_eq!(Value::Array(Array::Float(vec![0.0f32.to_bits()])).ty(), Type::Array);
}

#[test]
fn test_subtype() {
    assert_eq!(Value::Character(b'n').subtype(), None);
    assert_eq!(Value::Int32(0).subtype(), None);
    assert_eq!(Value::Float(0.0f32.to_bits()).subtype(), None);
    assert_eq!(Value::String(b"noodles".to_vec()).subtype(), None);
    assert_eq!(Value::Hex(b"CAFE".to_vec()).subtype(), None);
    assert_eq!(Value::Array(Array::Int8(vec![0])).subtype(), Some(Subtype::Int8));
    assert_eq!(Value::Array(Array::UInt8(vec![0])).subtype(), Some(Subtype::UInt8));
    assert_eq!(Value::Array(Array::Int16(vec![0])).subtype(), Some(Subtype::Int16));
    assert_eq!(Value::Array(Array::UInt16(vec![0])).subtype(), Some(Subtype::UInt16));
    assert_eq!(Value::Array(Array::Int32(vec![0])).subtype(), Some(Subtype::Int32));
    assert_eq!(Value::Array(Array::UInt32(vec![0])).subtype(), Some(Subtype::UInt32));
    assert_eq!(Value::Array(Array::Float(vec![0.0f32.to_bits()])).subtype(), Some(Subtype::Float));
}

#[test]
fn test_from_i8_for_value() {
    assert_eq!(Value::from(i8::MIN), Value::Int8(i8::MIN));
    assert_eq!(Value::from(-1i8), Value::Int8(-1));

    assert_eq!(Value::from(0i8), Value::UInt8(0));
    assert_eq!(Value::from(1i8), Value::UInt8(1));
    assert_eq!(Value::from(i8::MAX), Value::UInt8(i8::MAX as u8));
}

#[test]
fn test_from_u8_for_value() {
    assert_eq!(Value::from(u8::MIN), Value::UInt8(u8::MIN));
    assert_eq!(Value::from(u8::MAX), Value::UInt8(u8::MAX));
}

#[test]
fn test_from_i16_for_value() {
    assert_eq!(Value::from(i16::MIN), Value::Int16(i16::MIN));
    assert_eq!(Value::from(-129i16), Value::Int16(-129)); // i8::MIN - 1

    assert_eq!(Value::from(-128i16), Value::Int8(-128)); // i8::MAX
    assert_eq!(Value::from(-1i16), Value::Int8(-1));

    assert_eq!(Value::from(0i16), Value::UInt8(0));
    assert_eq!(Value::from(1i16), Value::UInt8(1));
    assert_eq!(Value::from(255i16), Value::UInt8(255)); // u8::MAX

    assert_eq!(Value::from(256i16), Value::UInt16(256)); // u8::MAX + 1
    assert_eq!(Value::from(i16::MAX), Value::UInt16(i16::MAX as u16));
}

#[test]
fn test_from_u16_for_value() {
    assert_eq!(Value::from(u16::MIN), Value::UInt8(0));
    assert_eq!(Value::from(255u16), Value::UInt8(255));

    assert_eq!(Value::from(256u16), Value::UInt16(256));
    assert_eq!(Value::from(u16::MAX), Value::UInt16(u16::MAX));
}

#[test]
fn test_from_i32_for_value() {
    assert_eq!(Value::from(i32::MIN), Value::Int32(i32::MIN));
    assert_eq!(Value::from(-32769i32), Value::Int32(-32769)); // i16::MIN - 1

    assert_eq!(Value::from(-32768i32), Value::Int16(-32768)); // i16::MIN
    assert_eq!(Value::from(-129i32), Value::Int16(-129)); // i8::MIN - 1

    assert_eq!(Value::from(-128i32), Value::Int8(-128)); // i8::MIN
    assert_eq!(Value::from(-1i32), Value::Int8(-1));

    assert_eq!(Value::from(0i32), Value::UInt8(0));
    assert_eq!(Value::from(1i32), Value::UInt8(1));
    assert_eq!(Value::from(255i32), Value::UInt8(255)); // u8::MAX

    assert_eq!(Value::from(256i32), Value::UInt16(256)); // u8::MAX + 1
    assert_eq!(Value::from(65535i32), Value::UInt16(65535)); // u16::MAX

    assert_eq!(Value::from(65536i32), Value::UInt32(65536)); // u16::MAX + 1
    assert_eq!(Value::from(i32::MAX), Value::UInt32(i32::MAX as u32));
}

#[test]
fn test_from_u32_for_value() {
    assert_eq!(Value::from(u32::MIN), Value::UInt8(0));
    assert_eq!(Value::from(255u32), Value::UInt8(255)); // u8::MAX

    assert_eq!(Value::from(256u32), Value::UInt16(256)); // u8::MAX + 1
    assert_eq!(Value::from(65535u32), Value::UInt16(65535)); // u16::MAX

    assert_eq!(Value::from(65536u32), Value::UInt32(65536)); // u16::MAX + 1
    assert_eq!(Value::from(u32::MAX), Value::UInt32(u32::MAX));
}

#[test]
fn test_from_vec_i8_for_value() {
    assert_eq!(Value::from(vec![0i8]), Value::Array(Array::Int8(vec![0])));
}

#[test]
fn test_from_vec_u8_for_value() {
    assert_eq!(Value::from(vec![0u8]), Value::Array(Array::UInt8(vec![0])));
}

#[test]
fn test_from_vec_i16_for_value() {
    assert_eq!(Value::from(vec![0i16]), Value::Array(Array::Int16(vec![0])));
}

#[test]
fn test_from_vec_u16_for_value() {
    assert_eq!(Value::from(vec![0u16]), Value::Array(Array::UInt16(vec![0])));
}

#[test]
fn test_from_vec_i32_for_value() {
    assert_eq!(Value::from(vec![0i32]), Value::Array(Array::Int32(vec![0])));
}

#[test]
fn test_from_vec_u32_for_value() {
    assert_eq!(Value::from(vec![0u32]), Value::Array(Array::UInt32(vec![0])));
}

#[test]
fn accessors() {
    assert_eq!(Value::Character(b'a').as_char(), Some(b'a'));
    assert_eq!(Value::Int32(0).as_char(), None);
    assert!(Value::Character(b'a').is_char());
    assert_eq!(Value::Int32(0).as_int32(), Some(0));
    assert_eq!(Value::Character(b'a').as_int32(), None);
    assert!(!Value::Character(b'a').is_int32());
    assert_eq!(Value::Float(0.0f32.to_bits()).as_float(), Some(0));
    assert!(Value::Float(0).is_float());
    assert_eq!(Value::String(b"noodles".to_vec()).as_str(), Some(&b"noodles"[..]));
    assert_eq!(Value::Int32(0).as_str(), None);
    assert!(Value::String(Vec::new()).is_str());
    assert_eq!(Value::Hex(b"CAFE".to_vec()).as_hex(), Some(&b"CAFE"[..]));
    assert!(!Value::Int32(0).is_hex());
    assert_eq!(Value::Array(Array::Int8(vec![0])).as_int8_array(), Some(&[0i8][..]));
    assert_eq!(Value::Int32(0).as_int8_array(), None);
    assert!(Value::Array(Array::UInt8(vec![0])).is_uint8_array());
    assert_eq!(Value::Array(Array::UInt16(vec![0])).as_uint16_array(), Some(&[0u16][..]));
    assert!(!Value::Int32(0).is_int16_array());
    assert_eq!(Value::Array(Array::Int32(vec![0])).as_int32_array(), Some(&[0i32][..]));
    assert!(Value::Array(Array::UInt32(vec![0])).is_uint32_array());
    assert_eq!(Value::Array(Array::Float(vec![7])).as_float_array(), Some(&[7u32][..]));
    assert!(Value::Array(Array::Float(vec![])).is_float_array());
    assert_eq!(Value::Array(Array::Int16(vec![1])).as_int16_array(), Some(&[1i16][..]));
    assert_eq!(Value::Array(Array::UInt32(vec![1])).as_uint32_array(), Some(&[1u32][..]));
    assert!(Value::Array(Array::Int32(vec![])).is_int32_array());
    assert!(Value::Array(Array::UInt16(vec![])).is_uint16_array());
    assert!(Value::Array(Array::Int8(vec![])).is_int8_array());
    assert_eq!(Value::Array(Array::UInt8(vec![2])).as_uint8_array(), Some(&[2u8][..]));
}
