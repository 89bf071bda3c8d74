use seqidx::base::Base;
use seqidx::gff::{classify_line, read_line, trim_line_ending, Line, Reader};
use seqidx::header_map::{consume_prefix, consume_suffix, ParseError};
use seqidx::name::Name;

#[test]
fn test_as_bytes() {
    let name = Name::new(b"r0\x00");
    assert_eq!(name.as_bytes(), b"r0");

    let name = Name::new(b"r0");
    assert_eq!(name.as_bytes(), b"r0");
}

#[test]
fn test_from_name_for_sam_alignment_record_buf_name() {
    let expected = b"r0".to_vec();

    let name = Name::new(b"r0\x00");
    let actual = Vec::from(name);
    assert_eq!(actual, expected);

    let name = Name::new(b"r0");
    let actual = Vec::from(name);
    assert_eq!(actual, expected);
}

#[test]
fn test_complement() {
    assert_eq!(Base::Eq.complement(), Base::Eq);
    assert_eq!(Base::A.complement(), Base::T);
    assert_eq!(Base::C.complement(), Base::G);
    assert_eq!(Base::M.complement(), Base::K);
    assert_eq!(Base::G.complement(), Base::C);
    assert_eq!(Base::R.complement(), Base::Y);
    assert_eq!(Base::S.complement(), Base::S);
    assert_eq!(Base::V.complement(), Base::B);
    assert_eq!(Base::T.complement(), Base::A);
    assert_eq!(Base::W.complement(), Base::W);
    assert_eq!(Base::Y.complement(), Base::R);
    assert_eq!(Base::H.complement(), Base::D);
    assert_eq!(Base::K.complement(), Base::M);
    assert_eq!(Base::D.complement(), Base::H);
    assert_eq!(Base::B.complement(), Base::V);
    assert_eq!(Base::N.complement(), Base::N);
}

#[test]
fn test_from_base_for_char() {
    assert_eq!(char::from(Base::Eq), '=');
    assert_eq!(char::from(Base::A), 'A');
    assert_eq!(char::from(Base::C), 'C');
    assert_eq!(char::from(Base::M), 'M');
    assert_eq!(char::from(Base::G), 'G');
    assert_eq!(char::from(Base::R), 'R');
    assert_eq!(char::from(Base::S), 'S');
    assert_eq!(char::from(Base::V), 'V');
    assert_eq!(char::from(Base::T), 'T');
    assert_eq!(char::from(Base::W), 'W');
    assert_eq!(char::from(Base::Y), 'Y');
    assert_eq!(char::from(Base::H), 'H');
    assert_eq!(char::from(Base::K), 'K');
    assert_eq!(char::from(Base::D), 'D');
    assert_eq!(char::from(Base::B), 'B');
    assert_eq!(char::from(Base::N), 'N');
}

#[test]
fn test_read_line() {
    fn t(buf: &mut String, mut reader: &[u8], expected: &str) {
        buf.clear();
        read_line(&mut reader, buf).unwrap();
        assert_eq!(buf, expected);
    }

    let mut buf = String::new();

    t(&mut buf, b"noodles\n", "noodles");
    t(&mut buf, b"noodles\r\n", "noodles");
    t(&mut buf, b"noodles", "noodles");
}

#[test]
fn read_line_at_end_of_input() {
    let mut reader = &b""[..];
    let mut buf = String::from("kept");
    assert_eq!(read_line(&mut reader, &mut buf).unwrap(), 0);
    assert_eq!(buf, "kept");
}

#[test]
fn trims_only_a_final_line_ending() {
    let mut s = String::from("a\r\n");
    trim_line_ending(&mut s);
    assert_eq!(s, "a");
    let mut s = String::from("a\r");
    trim_line_ending(&mut s);
    assert_eq!(s, "a\r");
    let mut s = String::from("\n");
    trim_line_ending(&mut s);
    assert_eq!(s, "");
}

#[test]
fn reader_reads_and_sorts_lines() {
    let data = b"##gff-version 3\n#comment\nsq0\tNOODLES\tgene\t8\t13\t.\t+\t.\tgene_id=ndls0\n";
    let mut reader = Reader::new(&data[..]);
    let mut line = Line::Record(String::new());
    assert_eq!(reader.read_lazy_line(&mut line).unwrap(), 16);
    assert_eq!(line, Line::Directive(String::from("##gff-version 3")));
    reader.read_lazy_line(&mut line).unwrap();
    assert_eq!(line, Line::Comment(String::from("#comment")));
    reader.read_lazy_line(&mut line).unwrap();
    assert!(matches!(line, Line::Record(_)));
    assert_eq!(reader.read_lazy_line(&mut line).unwrap(), 0);
    assert_eq!(line, Line::Comment(String::new()));

    let mut reader = Reader::new(&b"##gff-version 3\n#format: gff3\n"[..]);
    let mut buf = String::new();
    reader.read_line(&mut buf).unwrap();
    assert_eq!(buf, "##gff-version 3");
    assert_eq!(*reader.get_ref(), &b"#format: gff3\n"[..]);
    assert_eq!(reader.into_inner(), b"#format: gff3\n");
}

#[test]
fn classifies_lines() {
    assert_eq!(classify_line(String::from("##x")), Line::Directive(String::from("##x")));
    assert_eq!(classify_line(String::from("#")), Line::Comment(String::from("#")));
    assert_eq!(classify_line(String::new()), Line::Record(String::new()));
}

#[test]
fn consumes_map_brackets() {
    let mut src = &b"<ID=x>"[..];
    assert_eq!(consume_prefix(&mut src), Ok(()));
    assert_eq!(src, b"ID=x>");
    assert_eq!(consume_prefix(&mut src), Err(ParseError::InvalidPrefix));
    let mut src = &b">"[..];
    assert_eq!(consume_suffix(&mut src), Ok(()));
    assert!(src.is_empty());
    assert_eq!(consume_suffix(&mut src), Err(ParseError::UnexpectedEof));
    assert_eq!(consume_prefix(&mut src), Err(ParseError::UnexpectedEof));
    let mut src = &b"x"[..];
    assert_eq!(consume_suffix(&mut src), Err(ParseError::InvalidSuffix));
}
