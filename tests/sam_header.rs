use seqidx::sam_header::{parse_header, parse_tag, parse_version, Context, FieldError, HeaderRecord, ParseError, Tag, TagError, ValueError, Version};

#[test]
fn test_parse_header() {
    let mut src = &b"\tVN:1.6"[..];
    let ctx = Context::default();
    assert_eq!(parse_header(&mut src, &ctx), Ok(HeaderRecord::new(Version::new(1, 6))));
}

#[test]
fn test_parse_header_with_missing_version() {
    let mut src = &b"\tSO:coordinate"[..];
    let ctx = Context::default();
    assert_eq!(parse_header(&mut src, &ctx), Err(ParseError::MissingVersion));
}

#[test]
fn keeps_other_fields_in_order() {
    let mut src = &b"\tSO:coordinate\tVN:1.17\tGO:query"[..];
    let record = parse_header(&mut src, &Context::default()).unwrap();
    assert_eq!(record.version(), Version::new(1, 17));
    let fields: Vec<((u8, u8), Vec<u8>)> =
        record.other_fields().iter().map(|(k, v)| (*k, v.clone())).collect();
    assert_eq!(
        fields,
        vec![((b'S', b'O'), b"coordinate".to_vec()), ((b'G', b'O'), b"query".to_vec())]
    );
}

#[test]
fn duplicate_tags() {
    let mut src = &b"\tVN:1.6\tVN:1.5"[..];
    assert_eq!(
        parse_header(&mut src, &Context::default()),
        Err(ParseError::DuplicateTag(Tag::Version))
    );
    let mut src = &b"\tVN:1.6\tVN:1.5"[..];
    let record = parse_header(&mut src, &Context::new(true)).unwrap();
    assert_eq!(record.version(), Version::new(1, 5));

    let mut src = &b"\tVN:1.6\tSO:a\tSO:b"[..];
    assert_eq!(
        parse_header(&mut src, &Context::default()),
        Err(ParseError::DuplicateTag(Tag::Other(b'S', b'O')))
    );
    let mut src = &b"\tVN:1.6\tSO:a\tSO:b"[..];
    let record = parse_header(&mut src, &Context::new(true)).unwrap();
    assert_eq!(record.other_fields().get(&(b'S', b'O')), Some(&b"b".to_vec()));
}

#[test]
fn malformed_fields() {
    let ctx = Context::default();
    let mut src = &b"VN:1.6"[..];
    assert_eq!(parse_header(&mut src, &ctx), Err(ParseError::InvalidField(FieldError::InvalidDelimiter)));
    let mut src = &b"\tV"[..];
    assert_eq!(parse_header(&mut src, &ctx), Err(ParseError::InvalidTag(TagError::UnexpectedEof)));
    let mut src = &b"\t1N:1.6"[..];
    assert_eq!(parse_header(&mut src, &ctx), Err(ParseError::InvalidTag(TagError::Invalid)));
    let mut src = &b"\tVN=1.6"[..];
    assert_eq!(parse_header(&mut src, &ctx), Err(ParseError::InvalidField(FieldError::InvalidSeparator)));
    let mut src = &b"\tVN:"[..];
    assert_eq!(parse_header(&mut src, &ctx), Err(ParseError::InvalidValue(ValueError::Invalid)));
    let mut src = &b"\tVN:1.6\tSO:"[..];
    assert_eq!(
        parse_header(&mut src, &ctx),
        Err(ParseError::InvalidOther(Tag::Other(b'S', b'O'), ValueError::Invalid))
    );
    let mut src = &b"\tVN:1"[..];
    assert_eq!(parse_header(&mut src, &ctx), Err(ParseError::InvalidVersion));
    let mut src = &b"\tVN:1.x"[..];
    assert_eq!(parse_header(&mut src, &ctx), Err(ParseError::InvalidVersion));
}

#[test]
fn version_values() {
    let mut src = &b"+1.06\tSO:x"[..];
    assert_eq!(parse_version(&mut src), Ok(Version::new(1, 6)));
    assert_eq!(src, b"\tSO:x");
    let mut src = &b"4294967296.0"[..];
    assert_eq!(parse_version(&mut src), Err(ParseError::InvalidVersion));
    let mut src = &b"VN"[..];
    assert_eq!(parse_tag(&mut src), Ok(Tag::Version));
    let mut src = &b"SO"[..];
    assert_eq!(parse_tag(&mut src), Ok(Tag::Other(b'S', b'O')));
}
