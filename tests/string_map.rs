use seqidx::string_map::{read_filters, read_string_map_indices, write_filters, write_string_map_indices, StringMap, StringMapError};

fn header_strings() -> StringMap {
    let mut string_map = StringMap::new();
    string_map.insert(String::from("PASS"));
    string_map.insert(String::from("s50"));
    string_map.insert(String::from("q10"));
    string_map
}

#[test]
fn test_write_filters() {
    fn t(buf: &mut Vec<u8>, string_map: &StringMap, filters: &[&str], expected: &[u8]) {
        buf.clear();
        let filters: Vec<String> = filters.iter().map(|s| s.to_string()).collect();
        write_filters(buf, string_map, &filters).unwrap();
        assert_eq!(buf, expected);
    }

    let string_map = header_strings();
    let mut buf = Vec::new();

    t(&mut buf, &string_map, &[], &[0x00]);
    t(&mut buf, &string_map, &["PASS"], &[0x11, 0x00]);
    t(&mut buf, &string_map, &["q10"], &[0x11, 0x02]);
    t(&mut buf, &string_map, &["q10", "s50"], &[0x21, 0x02, 0x01]);
}

#[test]
fn missing_filter_is_an_error_and_writes_nothing() {
    let string_map = header_strings();
    let mut buf = vec![0x99];
    let filters = vec![String::from("q10"), String::from("x"), String::from("y")];
    assert_eq!(
        write_filters(&mut buf, &string_map, &filters),
        Err(StringMapError::UnknownIdentifier(String::from("x")))
    );
    assert_eq!(buf, [0x99]);
}

#[test]
fn filters_round_trip() {
    let string_map = header_strings();
    let mut buf = Vec::new();
    write_filters(&mut buf, &string_map, &vec![String::from("PASS")]).unwrap();
    assert_eq!(buf, [0x11, 0x00]);
    let mut src = &buf[..];
    assert_eq!(read_filters(&mut src, &string_map), Ok(vec![String::from("PASS")]));
    assert!(src.is_empty());

    let mut src = &[0x00][..];
    assert_eq!(read_filters(&mut src, &string_map), Ok(Vec::new()));
}

#[test]
fn out_of_range_index_is_an_error() {
    let string_map = header_strings();
    let mut src = &[0x21, 0x01, 0x03][..];
    assert_eq!(read_filters(&mut src, &string_map), Err(StringMapError::IndexOutOfBounds(3)));
}

#[test]
fn malformed_index_vectors() {
    let mut src = &[][..];
    assert_eq!(read_string_map_indices(&mut src), Err(StringMapError::Malformed));
    // type nibble 7 is not an integer type
    let mut src = &[0x17, 0x00][..];
    assert_eq!(read_string_map_indices(&mut src), Err(StringMapError::Malformed));
    // negative 8-bit index
    let mut src = &[0x11, 0x80][..];
    assert_eq!(read_string_map_indices(&mut src), Err(StringMapError::Malformed));
    // cut short
    let mut src = &[0x32, 0x01, 0x00][..];
    assert_eq!(read_string_map_indices(&mut src), Err(StringMapError::Malformed));
}

#[test]
fn wide_and_long_index_vectors() {
    let indices: Vec<usize> = vec![1, 300];
    let mut buf = Vec::new();
    write_string_map_indices(&mut buf, &indices);
    assert_eq!(buf, [0x22, 0x01, 0x00, 0x2c, 0x01]);
    let mut src = &buf[..];
    assert_eq!(read_string_map_indices(&mut src), Ok(indices));

    let indices: Vec<usize> = (0..20).collect();
    let mut buf = Vec::new();
    write_string_map_indices(&mut buf, &indices);
    assert_eq!(&buf[..3], &[0xf1, 0x11, 20]);
    assert_eq!(buf.len(), 3 + 20);
    let mut src = &buf[..];
    assert_eq!(read_string_map_indices(&mut src), Ok(indices));

    let indices: Vec<usize> = vec![70000];
    let mut buf = Vec::new();
    write_string_map_indices(&mut buf, &indices);
    assert_eq!(buf, [0x13, 0x70, 0x11, 0x01, 0x00]);
}

#[test]
fn dictionary_lookups() {
    let mut string_map = header_strings();
    assert_eq!(string_map.len(), 3);
    assert_eq!(string_map.get_index_of(&String::from("s50")), Some(1));
    assert_eq!(string_map.get_index_of(&String::from("nope")), None);
    assert_eq!(string_map.get_index(2), Some(&String::from("q10")));
    assert_eq!(string_map.get_index(3), None);
    assert_eq!(string_map.insert(String::from("s50")), 1);
    assert_eq!(string_map.insert(String::from("lowqual")), 3);
    assert_eq!(string_map.len(), 4);
}
