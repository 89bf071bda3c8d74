use std::io;

use seqidx::vcf_record::{read_field, read_record, Bounds, Record};

#[test]
fn test_read_lazy_record() -> io::Result<()> {
    let mut src = &b"sq0\t1\t.\tA\t.\t.\t.\t.\n"[..];
    let mut record = Record::default();
    read_record(&mut src, &mut record)?;
    assert_eq!(record.fields().buf, "sq01.A....");
    assert_eq!(record.fields().bounds, Bounds::default());

    let mut src = &b"sq0\t1\t.\tA\t.\t.\t.\t.\r\n"[..];
    let mut record = Record::default();
    read_record(&mut src, &mut record)?;
    assert_eq!(record.fields().buf, "sq01.A....");
    assert_eq!(record.fields().bounds, Bounds::default());

    let mut src = &b"\n"[..];
    assert!(matches!(
        read_record(&mut src, &mut record),
        Err(e) if e.kind() == io::ErrorKind::InvalidData,
    ));

    Ok(())
}

#[test]
fn record_with_samples_keeps_the_rest_of_the_line() {
    let mut src = &b"sq0\t8\tr0\tAC\tG\t13\tPASS\tDP=5\tGT\t0|1\r\nnext"[..];
    let mut record = Record::default();
    let n = read_record(&mut src, &mut record).unwrap();
    assert_eq!(n, 35);
    assert_eq!(src, b"next");
    assert_eq!(record.fields().buf, "sq08r0ACG13PASSDP=5GT\t0|1");
    let b = &record.fields().bounds;
    assert_eq!(
        (b.reference_sequence_name_end, b.variant_start_end, b.ids_end, b.reference_bases_end),
        (3, 4, 6, 8)
    );
    assert_eq!((b.alternate_bases_end, b.quality_score_end, b.filters_end, b.info_end), (9, 11, 15, 19));
}

#[test]
fn end_of_input_reads_nothing() {
    let mut src = &b""[..];
    let mut record = Record::default();
    assert_eq!(read_record(&mut src, &mut record).unwrap(), 0);
    assert_eq!(record.fields().buf, "");
}

#[test]
fn invalid_utf8_is_invalid_data() {
    let mut src = &b"s\xff\t1\t.\tA\t.\t.\t.\t.\n"[..];
    let mut record = Record::default();
    assert!(matches!(
        read_record(&mut src, &mut record),
        Err(e) if e.kind() == io::ErrorKind::InvalidData,
    ));
}

#[test]
fn fields_drop_a_carriage_return_before_their_end() {
    let mut src = &b"ab\r\tc"[..];
    let mut buf = String::new();
    assert_eq!(read_field(&mut src, &mut buf).unwrap(), (4, false));
    assert_eq!(buf, "ab");
    assert_eq!(read_field(&mut src, &mut buf).unwrap(), (1, false));
    assert_eq!(buf, "abc");
    assert!(src.is_empty());
    let mut src = &b"x\ny"[..];
    assert_eq!(read_field(&mut src, &mut buf).unwrap(), (2, true));
}
