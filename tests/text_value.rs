use seqidx::text_value::{
    is_valid_char, is_valid_hex_char, is_valid_string, is_valid_string_char, parse_char, parse_hex,
    parse_i16, parse_i32, parse_i8, parse_int_elements, parse_string, parse_u16, parse_u32,
    parse_u8, split_array, ParseError,
};
use seqidx::text_value::{value_from_char, value_from_string};
use seqidx::value::{Array, Subtype, Value};

fn ints(s: &str) -> Result<Array, ParseError> {
    let (subtype, elements) = split_array(s)?;
    parse_int_elements(subtype, &elements)
}

#[test]
fn characters() {
    assert_eq!(parse_char("n"), Ok('n'));
    assert_eq!(parse_char(""), Err(ParseError::InvalidCharValue));
    assert_eq!(parse_char("🍜"), Err(ParseError::InvalidCharValue));
    assert_eq!(parse_char(" "), Err(ParseError::InvalidCharValue));
    assert!(is_valid_char('~'));
    assert!(!is_valid_char(' '));
}

#[test]
fn integers() {
    assert_eq!(parse_i32("13"), Ok(13));
    assert_eq!(parse_i32("-89"), Ok(-89));
    assert_eq!(parse_i32("+5"), Ok(5));
    assert_eq!(parse_i32(""), Err(ParseError::InvalidIntValue));
    assert_eq!(parse_i32("ndls"), Err(ParseError::InvalidIntValue));
    assert_eq!(parse_i32("2147483648"), Err(ParseError::InvalidIntValue));
    assert_eq!(parse_i8("-128"), Ok(-128));
    assert_eq!(parse_i8("128"), Err(ParseError::InvalidIntValue));
    assert_eq!(parse_u8("255"), Ok(255));
    assert_eq!(parse_u8("-1"), Err(ParseError::InvalidIntValue));
    assert_eq!(parse_i16("-32768"), Ok(-32768));
    assert_eq!(parse_u16("65536"), Err(ParseError::InvalidIntValue));
    assert_eq!(parse_u32("4294967295"), Ok(u32::MAX));
}

#[test]
fn strings_and_hex() {
    assert_eq!(parse_string(""), Ok(Vec::new()));
    assert_eq!(parse_string(" "), Ok(b" ".to_vec()));
    assert_eq!(parse_string("noodles"), Ok(b"noodles".to_vec()));
    assert_eq!(parse_string("🍜"), Err(ParseError::InvalidStringValue));
    assert!(is_valid_string("a b~"));
    assert!(!is_valid_string("a\tb"));
    assert!(is_valid_string_char(' '));
    assert_eq!(parse_hex("CAFE"), Ok(b"CAFE".to_vec()));
    assert_eq!(parse_hex("cafe"), Err(ParseError::InvalidHexValue));
    assert_eq!(parse_hex("CAFE0"), Err(ParseError::InvalidHexValue));
    assert_eq!(parse_hex("NDLS"), Err(ParseError::InvalidHexValue));
    assert!(is_valid_hex_char('F'));
    assert!(!is_valid_hex_char('G'));
}

#[test]
fn arrays() {
    assert_eq!(ints("c"), Ok(Array::Int8(Vec::new())));
    assert_eq!(ints("c,1,-2"), Ok(Array::Int8(vec![1, -2])));
    assert_eq!(ints("c,"), Err(ParseError::InvalidIntValue));
    assert_eq!(ints("c,ndls"), Err(ParseError::InvalidIntValue));
    assert_eq!(ints("C,3,5"), Ok(Array::UInt8(vec![3, 5])));
    assert_eq!(ints("C,256"), Err(ParseError::InvalidIntValue));
    assert_eq!(ints("s,8,-13"), Ok(Array::Int16(vec![8, -13])));
    assert_eq!(ints("S,21,34"), Ok(Array::UInt16(vec![21, 34])));
    assert_eq!(ints("i,55,-89"), Ok(Array::Int32(vec![55, -89])));
    assert_eq!(ints("I,144,233"), Ok(Array::UInt32(vec![144, 233])));
    assert_eq!(split_array("x,1"), Err(ParseError::InvalidSubtype));
    assert_eq!(split_array("cc,1"), Err(ParseError::InvalidSubtype));
    assert_eq!(
        split_array("f,0,1"),
        Ok((Subtype::Float, vec![String::from("0"), String::from("1")]))
    );
    assert_eq!(split_array("f,"), Ok((Subtype::Float, vec![String::new()])));
}

#[test]
fn test_try_from_char_for_value() {
    assert_eq!(value_from_char('n'), Ok(Value::Character(b'n')));
    assert_eq!(value_from_char('🍜'), Err(ParseError::InvalidCharValue));
}

#[test]
fn test_try_from_string_for_value() {
    assert_eq!(
        value_from_string(String::from("noodles")),
        Ok(Value::String(b"noodles".to_vec()))
    );
    assert_eq!(value_from_string(String::from("🍜")), Err(ParseError::InvalidStringValue));
}
