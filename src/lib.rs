//! Typed-field codecs and an indexed region-query engine for coordinate-sorted,
//! block-compressed genomic record streams.
//!
//! - [`value`]: self-describing typed field values and their binary codec.
//! - [`string_map`]: string dictionaries, and identifiers written as indices into them.
//! - [`virtual_offset`]: positions in a block-compressed stream, and chunks of them.
//! - [`binning`]: the hierarchical binning index and its region query.
//! - [`query`]: the decisions of a query that reads records chunk by chunk.
//! - [`text_value`]: field values written as text.
//! - [`filters`], [`header_map`], [`sam_header`], [`cram_header`], [`cram_features`], [`gff`],
//!   [`vcf_record`], [`name`], [`base`]: record and header pieces of the formats around them.

pub mod base;
pub mod binning;
pub mod cram_features;
pub mod cram_header;
pub mod filters;
pub mod gff;
pub mod header_map;
pub mod name;
pub mod query;
pub mod sam_header;
pub mod string_map;
pub mod text_value;
pub mod value;
pub mod vcf_record;
pub mod virtual_offset;
