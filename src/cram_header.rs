//! The SAM header text held in the file-header block of a CRAM header container.
//!
//! The block must be stored raw or gzip-compressed and hold file-header content. Its
//! (decompressed) data is a 32-bit little-endian length followed by that many bytes of header
//! text, in UTF-8.

use vstd::prelude::*;
use vstd::string::*;
use vstd::slice::slice_subrange;
use vstd::utf8::{decode_utf8, valid_utf8};
use crate::value::le_value;
use crate::vcf_record::utf8_text;

verus! {

/// How the data of a block is compressed.
#[derive(Clone, Copy, Debug, Eq, PartialEq, Structural)]
pub enum CompressionMethod {
    /// Stored without compression.
    Raw,
    Gzip,
    Bzip2,
    Lzma,
    Rans4x8,
    RansNx16,
    AdaptiveArithmeticCoding,
    Fqzcomp,
    NameTokenizer,
}

/// What a block holds.
#[derive(Clone, Copy, Debug, Eq, PartialEq, Structural)]
pub enum ContentType {
    FileHeader,
    CompressionHeader,
    SliceHeader,
    Reserved,
    ExternalData,
    CoreData,
}

/// A container block, with its data already decompressed.
#[derive(Clone, Debug, Eq, PartialEq)]
pub struct Block {
    pub compression_method: CompressionMethod,
    pub content_type: ContentType,
    pub data: Vec<u8>,
}

/// Why a block holds no SAM header text.
#[derive(Clone, Copy, Debug, Eq, PartialEq, Structural)]
pub enum HeaderBlockError {
    /// The block is compressed with a method other than none or gzip.
    InvalidCompressionMethod(CompressionMethod),
    /// The block holds other content than the file header.
    InvalidContentType(ContentType),
    /// The data is too short for its length prefix.
    UnexpectedEof,
    /// The length prefix is negative.
    InvalidLength,
    /// The header text is not UTF-8.
    InvalidText,
}

/// The length that the first four data bytes announce, as a signed 32-bit integer.
pub open spec fn header_length(d: Seq<u8>) -> int {
    let u = le_value(d.subrange(0, 4));
    if u >= 0x8000_0000 {
        u - 0x1_0000_0000
    } else {
        u
    }
}

/// The header text bytes: what follows the length prefix, cut to the announced length.
pub open spec fn header_bytes(d: Seq<u8>) -> Seq<u8> {
    let rest = d.subrange(4, d.len() as int);
    if header_length(d) < rest.len() {
        rest.subrange(0, header_length(d))
    } else {
        rest
    }
}

/// Reads the SAM header text of a file-header block.
pub fn read_raw_sam_header(block: &Block) -> (r: Result<String, HeaderBlockError>)
    ensures
        !(block.compression_method == CompressionMethod::Raw || block.compression_method
            == CompressionMethod::Gzip) ==> r == Err::<String, HeaderBlockError>(
            HeaderBlockError::InvalidCompressionMethod(block.compression_method),
        ),
        (block.compression_method == CompressionMethod::Raw || block.compression_method
            == CompressionMethod::Gzip) ==> {
            let d = block.data@;
            if block.content_type != ContentType::FileHeader {
                r == Err::<String, HeaderBlockError>(
                    HeaderBlockError::InvalidContentType(block.content_type),
                )
            } else if d.len() < 4 {
                r == Err::<String, HeaderBlockError>(HeaderBlockError::UnexpectedEof)
            } else if header_length(d) < 0 {
                r == Err::<String, HeaderBlockError>(HeaderBlockError::InvalidLength)
            } else if !valid_utf8(header_bytes(d)) {
                r == Err::<String, HeaderBlockError>(HeaderBlockError::InvalidText)
            } else {
                r matches Ok(s) && s@ == decode_utf8(header_bytes(d))
            }
        },
{
    match block.compression_method {
        CompressionMethod::Raw | CompressionMethod::Gzip => {},
        method => return Err(HeaderBlockError::InvalidCompressionMethod(method)),
    }
    if block.content_type != ContentType::FileHeader {
        return Err(HeaderBlockError::InvalidContentType(block.content_type));
    }
    let d = block.data.as_slice();
    if d.len() < 4 {
        return Err(HeaderBlockError::UnexpectedEof);
    }
    let u: u32 = d[0] as u32 + 0x100 * (d[1] as u32) + 0x1_0000 * (d[2] as u32) + 0x100_0000 * (
    d[3] as u32);
    assert(u as int == le_value(d@.subrange(0, 4)));
    if u >= 0x8000_0000 {
        return Err(HeaderBlockError::InvalidLength);
    }
    let rest = slice_subrange(d, 4, d.len());
    let text = if (u as usize) < rest.len() {
        slice_subrange(rest, 0, u as usize)
    } else {
        rest
    };
    assert(text@ == header_bytes(d@));
    match utf8_text(text) {
        Some(t) => Ok(String::from_str(t)),
        None => Err(HeaderBlockError::InvalidText),
    }
}

} // verus!
