use seqidx::cram_header::{read_raw_sam_header, Block, CompressionMethod, ContentType, HeaderBlockError};

fn block(method: CompressionMethod, content_type: ContentType, data: &[u8]) -> Block {
    Block { compression_method: method, content_type, data: data.to_vec() }
}

#[test]
fn reads_the_header_text() {
    let mut data = vec![0x0b, 0x00, 0x00, 0x00];
    data.extend_from_slice(b"@HD\tVN:1.6\n");
    let b = block(CompressionMethod::Raw, ContentType::FileHeader, &data);
    assert_eq!(read_raw_sam_header(&b), Ok(String::from("@HD\tVN:1.6\n")));
    let b = block(CompressionMethod::Gzip, ContentType::FileHeader, &data);
    assert_eq!(read_raw_sam_header(&b), Ok(String::from("@HD\tVN:1.6\n")));
}

#[test]
fn cuts_the_text_to_its_length() {
    let b = block(CompressionMethod::Raw, ContentType::FileHeader, &[0x02, 0, 0, 0, b'a', b'b', 0, 0]);
    assert_eq!(read_raw_sam_header(&b), Ok(String::from("ab")));
    let b = block(CompressionMethod::Raw, ContentType::FileHeader, &[0x09, 0, 0, 0, b'a']);
    assert_eq!(read_raw_sam_header(&b), Ok(String::from("a")));
}

#[test]
fn rejects_other_blocks() {
    let b = block(CompressionMethod::Lzma, ContentType::FileHeader, &[0, 0, 0, 0]);
    assert_eq!(
        read_raw_sam_header(&b),
        Err(HeaderBlockError::InvalidCompressionMethod(CompressionMethod::Lzma))
    );
    let b = block(CompressionMethod::Raw, ContentType::CoreData, &[0, 0, 0, 0]);
    assert_eq!(read_raw_sam_header(&b), Err(HeaderBlockError::InvalidContentType(ContentType::CoreData)));
    let b = block(CompressionMethod::Raw, ContentType::FileHeader, &[0, 0]);
    assert_eq!(read_raw_sam_header(&b), Err(HeaderBlockError::UnexpectedEof));
    let b = block(CompressionMethod::Raw, ContentType::FileHeader, &[0xff, 0xff, 0xff, 0xff]);
    assert_eq!(read_raw_sam_header(&b), Err(HeaderBlockError::InvalidLength));
    let b = block(CompressionMethod::Raw, ContentType::FileHeader, &[1, 0, 0, 0, 0xff]);
    assert_eq!(read_raw_sam_header(&b), Err(HeaderBlockError::InvalidText));
}
