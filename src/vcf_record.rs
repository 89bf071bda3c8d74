//! Reading the fields of a VCF record line into one buffer, with the position where each of
//! the eight required fields ends.
//!
//! Fields are separated by tabs and the line ends with a line feed (an optional carriage
//! return before a field's end is dropped). The first seven fields must each end with a tab;
//! the eighth (INFO) may end the line, or be followed by further fields, which are kept as
//! they are.

use vstd::prelude::*;
use vstd::slice::slice_subrange;
use vstd::string::*;
use vstd::utf8::{decode_utf8, valid_utf8};

verus! {

/// Relies on `memchr::memchr2`: the index of the first byte of `haystack` that is `needle1` or
/// `needle2`, if there is one.
#[verifier::external_body]
fn find_either(needle1: u8, needle2: u8, haystack: &[u8]) -> (r: Option<usize>)
    ensures
        r matches Some(i) ==> i < haystack@.len() && (haystack@[i as int] == needle1
            || haystack@[i as int] == needle2) && forall|j: int|
            0 <= j < i ==> haystack@[j] != needle1 && haystack@[j] != needle2,
        r is None ==> forall|j: int|
            0 <= j < haystack@.len() ==> haystack@[j] != needle1 && haystack@[j] != needle2,
{
    memchr::memchr2(needle1, needle2, haystack)
}

/// Relies on `std::str::from_utf8`: it succeeds exactly on valid UTF-8, and gives the text
/// that the bytes encode.
#[verifier::external_body]
pub(crate) fn utf8_text<'a>(bytes: &'a [u8]) -> (r: Option<&'a str>)
    ensures
        r is Some <==> valid_utf8(bytes@),
        r matches Some(t) ==> t@ == decode_utf8(bytes@),
{
    std::str::from_utf8(bytes).ok()
}

/// Relies on `std::io::Error::new`: an error of kind `InvalidData` with the message.
#[verifier::external_body]
fn invalid_data(message: &str) -> std::io::Error {
    std::io::Error::new(std::io::ErrorKind::InvalidData, message)
}

/// The position of the first `a` or `b` in `s`, or its length.
pub open spec fn stop_index(s: Seq<u8>, a: u8, b: u8) -> nat
    decreases s.len(),
{
    if s.len() == 0 || s[0] == a || s[0] == b {
        0
    } else {
        1 + stop_index(s.drop_first(), a, b)
    }
}

proof fn lemma_stop_index(s: Seq<u8>, a: u8, b: u8, i: int)
    requires
        0 <= i <= s.len(),
        i == s.len() || s[i] == a || s[i] == b,
        forall|j: int| 0 <= j < i ==> s[j] != a && s[j] != b,
    ensures
        stop_index(s, a, b) == i,
    decreases i,
{
    if i > 0 {
        assert forall|j: int| 0 <= j < i - 1 implies s.drop_first()[j] != a && s.drop_first()[j]
            != b by {
            assert(s.drop_first()[j] == s[j + 1]);
        }
        lemma_stop_index(s.drop_first(), a, b, i - 1);
    }
}

/// The text of a span that ends at the first `a` or `b` of `s`: without one final carriage
/// return, which is dropped always (`always`) or only where the span ended at a stop byte.
pub open spec fn span_text(s: Seq<u8>, a: u8, b: u8, always: bool) -> Seq<u8> {
    let i = stop_index(s, a, b) as int;
    let t = s.subrange(0, i);
    if t.len() > 0 && t.last() == 0x0d && (always || i < s.len()) {
        t.drop_last()
    } else {
        t
    }
}

/// The number of bytes a span takes: its text and its stop byte, if there is one.
pub open spec fn span_consumed(s: Seq<u8>, a: u8, b: u8) -> int {
    let i = stop_index(s, a, b) as int;
    if i < s.len() {
        i + 1
    } else {
        i
    }
}

/// Whether a field of `s` ends the line.
pub open spec fn field_eol(s: Seq<u8>) -> bool {
    let i = stop_index(s, 0x09, 0x0a) as int;
    i < s.len() && s[i] == 0x0a
}

/// What follows the first `k` fields of `s`.
pub open spec fn rest_after(s: Seq<u8>, k: nat) -> Seq<u8>
    decreases k,
{
    if k == 0 {
        s
    } else {
        let t = rest_after(s, (k - 1) as nat);
        t.subrange(span_consumed(t, 0x09, 0x0a), t.len() as int)
    }
}

/// The text of field `k` of `s`.
pub open spec fn field_k(s: Seq<u8>, k: nat) -> Seq<u8> {
    span_text(rest_after(s, k), 0x09, 0x0a, true)
}

/// The characters of the first `k` fields of `s`, one after the other.
pub open spec fn chars_through(s: Seq<u8>, k: nat) -> Seq<char>
    decreases k,
{
    if k == 0 {
        Seq::empty()
    } else {
        chars_through(s, (k - 1) as nat) + decode_utf8(field_k(s, (k - 1) as nat))
    }
}

/// The number of bytes of the first `k` field texts of `s`.
pub open spec fn bytes_through(s: Seq<u8>, k: nat) -> int
    decreases k,
{
    if k == 0 {
        0
    } else {
        bytes_through(s, (k - 1) as nat) + field_k(s, (k - 1) as nat).len()
    }
}

/// The number of bytes of `s` that its first `k` fields take.
pub open spec fn consumed_through(s: Seq<u8>, k: nat) -> int {
    s.len() - rest_after(s, k).len()
}

proof fn lemma_stop_index_bound(s: Seq<u8>, a: u8, b: u8)
    ensures
        stop_index(s, a, b) <= s.len(),
    decreases s.len(),
{
    if s.len() > 0 && s[0] != a && s[0] != b {
        lemma_stop_index_bound(s.drop_first(), a, b);
    }
}

/// The positions where the required fields of a record end in its buffer.
#[derive(Clone, Debug, Eq, PartialEq)]
pub struct Bounds {
    pub reference_sequence_name_end: usize,
    pub variant_start_end: usize,
    pub ids_end: usize,
    pub reference_bases_end: usize,
    pub alternate_bases_end: usize,
    pub quality_score_end: usize,
    pub filters_end: usize,
    pub info_end: usize,
}

impl Default for Bounds {
    /// The bounds of the shortest record, `sq0 1 . A . . . .`.
    fn default() -> (r: Bounds)
        ensures
            r == (Bounds {
                reference_sequence_name_end: 3,
                variant_start_end: 4,
                ids_end: 5,
                reference_bases_end: 6,
                alternate_bases_end: 7,
                quality_score_end: 8,
                filters_end: 9,
                info_end: 10,
            }),
    {
        Bounds {
            reference_sequence_name_end: 3,
            variant_start_end: 4,
            ids_end: 5,
            reference_bases_end: 6,
            alternate_bases_end: 7,
            quality_score_end: 8,
            filters_end: 9,
            info_end: 10,
        }
    }
}

/// The fields of a record: their text, one after the other, and where each ends.
#[derive(Clone, Debug, Default, Eq, PartialEq)]
pub struct Fields {
    pub buf: String,
    pub bounds: Bounds,
}

/// A VCF record, held as the text of its fields.
#[derive(Clone, Debug, Default, Eq, PartialEq)]
pub struct Record {
    fields: Fields,
}

impl Record {
    /// The record's fields.
    pub closed spec fn fields_spec(&self) -> Fields {
        self.fields
    }

    /// The record's fields.
    pub fn fields(&self) -> (r: &Fields)
        ensures
            *r == self.fields_spec(),
    {
        &self.fields
    }
}

/// Reads a span up to the first `a` or `b` (consuming it) and appends its text to `dst`.
/// Returns the bytes consumed, whether the span ended with a line feed, and the length of its
/// text.
fn read_span(src: &mut &[u8], dst: &mut String, a: u8, b: u8, always: bool) -> (r:
    std::io::Result<(usize, bool, usize)>)
    ensures
        r is Ok <==> valid_utf8(span_text(old(src)@, a, b, always)),
        r matches Ok((n, eol, len)) ==> {
            let i = stop_index(old(src)@, a, b) as int;
            &&& n == span_consumed(old(src)@, a, b)
            &&& eol == (i < old(src)@.len() && old(src)@[i] == 0x0a)
            &&& len == span_text(old(src)@, a, b, always).len()
            &&& len <= n
            &&& final(dst)@ == old(dst)@ + decode_utf8(span_text(old(src)@, a, b, always))
            &&& final(src)@ == old(src)@.subrange(n as int, old(src)@.len() as int)
        },
{
    let s: &[u8] = *src;
    let slen = s.len();
    let (end, n): (usize, usize) = match find_either(a, b, s) {
        Some(i) => (i, i + 1),
        None => (s.len(), s.len()),
    };
    proof {
        lemma_stop_index(s@, a, b, end as int);
    }
    let mut text_end = end;
    if text_end > 0 && s[text_end - 1] == 0x0d && (always || end < s.len()) {
        text_end = text_end - 1;
    }
    let text = slice_subrange(s, 0, text_end);
    assert(text@ =~= span_text(s@, a, b, always));
    match utf8_text(text) {
        Some(t) => dst.append(t),
        None => return Err(invalid_data("invalid UTF-8")),
    }
    *src = slice_subrange(s, n, s.len());
    Ok((n, end < s.len() && s[end] == 0x0a, text_end))
}

/// Reads a field and appends its text to `dst`. Returns the bytes consumed and whether the
/// field ended the line.
pub fn read_field(src: &mut &[u8], dst: &mut String) -> (r: std::io::Result<(usize, bool)>)
    ensures
        r is Ok <==> valid_utf8(span_text(old(src)@, 0x09, 0x0a, true)),
        r matches Ok((n, eol)) ==> {
            &&& n == span_consumed(old(src)@, 0x09, 0x0a)
            &&& eol == field_eol(old(src)@)
            &&& final(dst)@ == old(dst)@ + decode_utf8(span_text(old(src)@, 0x09, 0x0a, true))
            &&& final(src)@ == old(src)@.subrange(n as int, old(src)@.len() as int)
        },
{
    match read_span(src, dst, 0x09, 0x0a, true) {
        Ok((n, eol, _)) => Ok((n, eol)),
        Err(e) => Err(e),
    }
}

/// Reads a field that must not end the line.
pub fn read_required_field(src: &mut &[u8], dst: &mut String) -> (r: std::io::Result<usize>)
    ensures
        r is Ok <==> valid_utf8(span_text(old(src)@, 0x09, 0x0a, true)) && !field_eol(old(src)@),
        r matches Ok(n) ==> {
            &&& n == span_consumed(old(src)@, 0x09, 0x0a)
            &&& final(dst)@ == old(dst)@ + decode_utf8(span_text(old(src)@, 0x09, 0x0a, true))
            &&& final(src)@ == old(src)@.subrange(n as int, old(src)@.len() as int)
        },
{
    match read_field(src, dst) {
        Ok((n, false)) => Ok(n),
        Ok((_, true)) => Err(invalid_data("unexpected EOL")),
        Err(e) => Err(e),
    }
}

/// Reads the last required field, which may end the line.
pub fn read_last_required_field(src: &mut &[u8], dst: &mut String) -> (r: std::io::Result<
    (usize, bool),
>)
    ensures
        r is Ok <==> valid_utf8(span_text(old(src)@, 0x09, 0x0a, true)),
        r matches Ok((n, eol)) ==> {
            &&& n == span_consumed(old(src)@, 0x09, 0x0a)
            &&& eol == field_eol(old(src)@)
            &&& final(dst)@ == old(dst)@ + decode_utf8(span_text(old(src)@, 0x09, 0x0a, true))
            &&& final(src)@ == old(src)@.subrange(n as int, old(src)@.len() as int)
        },
{
    read_field(src, dst)
}

/// Reads a record line into `record`: the text of its fields one after the other, without
/// separators, and where each required field ends. Returns the number of bytes read; 0 means
/// the input had ended.
#[verifier::rlimit(40)]
pub fn read_record(reader: &mut &[u8], record: &mut Record) -> (r: std::io::Result<usize>)
    ensures
        r is Ok <==> {
            &&& forall|k: nat| k < 7 ==> !#[trigger] field_eol(rest_after(old(reader)@, k))
            &&& forall|k: nat| k < 8 ==> valid_utf8(#[trigger] field_k(old(reader)@, k))
            &&& !field_eol(rest_after(old(reader)@, 7)) ==> valid_utf8(
                span_text(rest_after(old(reader)@, 8), 0x0a, 0x0a, false),
            )
        },
        r matches Ok(n) ==> {
            let s = old(reader)@;
            let b = final(record).fields_spec().bounds;
            let tail = if field_eol(rest_after(s, 7)) {
                Seq::<char>::empty()
            } else {
                decode_utf8(span_text(rest_after(s, 8), 0x0a, 0x0a, false))
            };
            &&& final(record).fields_spec().buf@ == chars_through(s, 8) + tail
            &&& b.reference_sequence_name_end == bytes_through(s, 1)
            &&& b.variant_start_end == bytes_through(s, 2)
            &&& b.ids_end == bytes_through(s, 3)
            &&& b.reference_bases_end == bytes_through(s, 4)
            &&& b.alternate_bases_end == bytes_through(s, 5)
            &&& b.quality_score_end == bytes_through(s, 6)
            &&& b.filters_end == bytes_through(s, 7)
            &&& b.info_end == bytes_through(s, 8)
            &&& n == s.len() - final(reader)@.len()
            &&& final(reader)@ == if field_eol(rest_after(s, 7)) {
                rest_after(s, 8)
            } else {
                rest_after(s, 8).subrange(
                    span_consumed(rest_after(s, 8), 0x0a, 0x0a),
                    rest_after(s, 8).len() as int,
                )
            }
        },
{
    let ghost s = reader@;
    let start_len = reader.len();
    let mut buf = String::new();
    let mut ends: Vec<usize> = Vec::new();
    let mut total: usize = 0;
    let mut k: usize = 0;
    while k < 7
        invariant
            s == old(reader)@,
            k <= 7,
            reader@ == rest_after(s, k as nat),
            buf@ == chars_through(s, k as nat),
            total == bytes_through(s, k as nat),
            total <= s.len() - reader@.len(),
            s.len() == start_len,
            ends@.len() == k,
            forall|m: int| 0 <= m < k ==> #[trigger] ends@[m] == bytes_through(s, (m + 1) as nat),
            forall|m: nat| m < k ==> !#[trigger] field_eol(rest_after(s, m)),
            forall|m: nat| m < k ==> valid_utf8(#[trigger] field_k(s, m)),
        decreases 7 - k,
    {
        let ghost t = reader@;
        proof {
            lemma_stop_index_bound(t, 0x09, 0x0a);
        }
        match read_span(reader, &mut buf, 0x09, 0x0a, true) {
            Ok((_, false, len)) => {
                total = total + len;
                ends.push(total);
            },
            Ok((_, true, _)) => {
                proof {
                    assert(field_eol(rest_after(s, k as nat)));
                }
                return Err(invalid_data("unexpected EOL"));
            },
            Err(e) => {
                proof {
                    assert(!valid_utf8(field_k(s, k as nat)));
                }
                return Err(e);
            },
        }
        proof {
            assert(rest_after(s, (k + 1) as nat) == reader@);
        }
        k = k + 1;
    }
    let ghost t7 = reader@;
    proof {
        lemma_stop_index_bound(t7, 0x09, 0x0a);
    }
    let eol = match read_span(reader, &mut buf, 0x09, 0x0a, true) {
        Ok((_, eol, len)) => {
            total = total + len;
            eol
        },
        Err(e) => {
            proof {
                assert(!valid_utf8(field_k(s, 7)));
            }
            return Err(e);
        },
    };
    let info_end = total;
    assert(rest_after(s, 8) == reader@);
    assert(buf@ == chars_through(s, 8));
    if !eol {
        let ghost t8 = reader@;
        proof {
            lemma_stop_index_bound(t8, 0x0a, 0x0a);
        }
        match read_span(reader, &mut buf, 0x0a, 0x0a, false) {
            Ok(_) => {},
            Err(e) => return Err(e),
        }
    }
    record.fields = Fields {
        buf,
        bounds: Bounds {
            reference_sequence_name_end: ends[0],
            variant_start_end: ends[1],
            ids_end: ends[2],
            reference_bases_end: ends[3],
            alternate_bases_end: ends[4],
            quality_score_end: ends[5],
            filters_end: ends[6],
            info_end,
        },
    };
    Ok(start_len - reader.len())
}

} // verus!
