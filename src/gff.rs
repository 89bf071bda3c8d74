//! Reading GFF lines from a buffered byte source.

use std::io::BufRead;
use vstd::prelude::*;
use vstd::string::*;

verus! {

#[verifier::external_type_specification]
#[verifier::external_body]
pub struct ExIoError(std::io::Error);

/// Relies on `BufRead::read_line`: on success it has appended to `buf` the characters it read
/// (up to and including the next line feed, or to the end of the input) and returns their
/// length in bytes, which is 0 exactly when nothing was left to read.
#[verifier::external_body]
fn read_raw_line<R: BufRead>(reader: &mut R, buf: &mut String) -> (r: std::io::Result<usize>)
    ensures
        r matches Ok(n) ==> exists|s: Seq<char>|
            final(buf)@ == old(buf)@ + s && (n == 0 <==> s.len() == 0),
{
    reader.read_line(buf)
}

/// A line without its line ending: one final line feed, and a carriage return before it.
pub open spec fn strip_line_ending(s: Seq<char>) -> Seq<char> {
    if s.len() > 0 && s.last() == '\n' {
        let t = s.drop_last();
        if t.len() > 0 && t.last() == '\r' {
            t.drop_last()
        } else {
            t
        }
    } else {
        s
    }
}

/// Removes a final `\n` or `\r\n` from `buf`.
pub fn trim_line_ending(buf: &mut String)
    ensures
        final(buf)@ == strip_line_ending(old(buf)@),
{
    let n = buf.as_str().unicode_len();
    let mut k = n;
    if k > 0 && buf.as_str().get_char(k - 1) == '\n' {
        k = k - 1;
        if k > 0 && buf.as_str().get_char(k - 1) == '\r' {
            k = k - 1;
        }
    }
    if k < n {
        let t = String::from_str(buf.as_str().substring_char(0, k));
        *buf = t;
    }
    assert(buf@ =~= strip_line_ending(old(buf)@));
}

/// Reads a line into `buf` (appending to it) and removes its line ending. Returns the number
/// of bytes read; 0 means the input had ended, and `buf` is then unchanged.
pub fn read_line<R: BufRead>(reader: &mut R, buf: &mut String) -> (r: std::io::Result<usize>)
    ensures
        r matches Ok(n) ==> exists|s: Seq<char>|
            (n == 0 <==> s.len() == 0) && final(buf)@ == if n == 0 {
                old(buf)@
            } else {
                strip_line_ending(old(buf)@ + s)
            },
{
    match read_raw_line(reader, buf) {
        Ok(0) => Ok(0),
        Ok(n) => {
            let ghost read = buf@;
            trim_line_ending(buf);
            proof {
                let s = choose|s: Seq<char>| read == old(buf)@ + s && (n == 0 <==> s.len() == 0);
                assert((n == 0 <==> s.len() == 0) && buf@ == strip_line_ending(old(buf)@ + s));
            }
            Ok(n)
        },
        Err(e) => Err(e),
    }
}

/// A line of a GFF file, not yet parsed.
#[derive(Clone, Debug, Eq, PartialEq)]
pub enum Line {
    /// A comment (`#...`).
    Comment(String),
    /// A directive (`##...`).
    Directive(String),
    /// A record.
    Record(String),
}

/// The text of a line.
pub open spec fn line_text(l: Line) -> Seq<char> {
    match l {
        Line::Comment(b) | Line::Directive(b) | Line::Record(b) => b@,
    }
}

/// Whether a line is sorted as its first characters say.
pub open spec fn is_sorted_line(l: Line) -> bool {
    let t = line_text(l);
    let hash = t.len() >= 1 && t[0] == '#';
    let double = t.len() >= 2 && t[0] == '#' && t[1] == '#';
    match l {
        Line::Directive(_) => double,
        Line::Comment(_) => hash && !double,
        Line::Record(_) => !hash,
    }
}

/// Sorts a line by its first characters: `##` starts a directive, `#` a comment, and
/// anything else is a record.
pub fn classify_line(buf: String) -> (r: Line)
    ensures
        line_text(r) == buf@,
        is_sorted_line(r),
{
    let n = buf.as_str().unicode_len();
    if n >= 1 && buf.as_str().get_char(0) == '#' {
        if n >= 2 && buf.as_str().get_char(1) == '#' {
            Line::Directive(buf)
        } else {
            Line::Comment(buf)
        }
    } else {
        Line::Record(buf)
    }
}

/// Whether a line ends the annotation part of a file: the `##FASTA` directive, after which
/// only sequences follow.
pub fn is_fasta_directive(line: &Line) -> (r: bool)
    ensures
        r == (line is Directive && line_text(*line) == seq!['#', '#', 'F', 'A', 'S', 'T', 'A']),
{
    match line {
        Line::Directive(s) => {
            let t = s.as_str();
            let n = t.unicode_len();
            let r = n == 7 && t.get_char(0) == '#' && t.get_char(1) == '#' && t.get_char(2) == 'F'
                && t.get_char(3) == 'A' && t.get_char(4) == 'S' && t.get_char(5) == 'T'
                && t.get_char(6) == 'A';
            proof {
                if r {
                    assert(t@ =~= seq!['#', '#', 'F', 'A', 'S', 'T', 'A']);
                }
                if t@ == seq!['#', '#', 'F', 'A', 'S', 'T', 'A'] {
                    assert(t@[2] == 'F' && t@[6] == 'A');
                }
            }
            r
        },
        _ => false,
    }
}

/// A GFF reader.
pub struct Reader<R> {
    inner: R,
}

impl<R> Reader<R> {
    /// The underlying reader.
    pub closed spec fn inner_spec(&self) -> R {
        self.inner
    }

    /// Creates a GFF reader.
    pub fn new(inner: R) -> (r: Reader<R>)
        ensures
            r.inner_spec() == inner,
    {
        Reader { inner }
    }

    /// Returns a reference to the underlying reader.
    pub fn get_ref(&self) -> (r: &R)
        ensures
            *r == self.inner_spec(),
    {
        &self.inner
    }

    /// Unwraps and returns the underlying reader.
    pub fn into_inner(self) -> (r: R)
        ensures
            r == self.inner_spec(),
    {
        self.inner
    }
}

impl<R: BufRead> Reader<R> {
    /// Reads a raw line into `buf` (appending to it), without its line ending. Returns the
    /// number of bytes read; 0 means the input had ended.
    pub fn read_line(&mut self, buf: &mut String) -> (r: std::io::Result<usize>)
        ensures
            r matches Ok(n) ==> exists|s: Seq<char>|
                (n == 0 <==> s.len() == 0) && final(buf)@ == if n == 0 {
                    old(buf)@
                } else {
                    strip_line_ending(old(buf)@ + s)
                },
    {
        read_line(&mut self.inner, buf)
    }

    /// Reads a single line without parsing it, sorted into directive, comment or record. At
    /// the end of the input, `line` is left as an empty comment and 0 is returned.
    pub fn read_lazy_line(&mut self, line: &mut Line) -> (r: std::io::Result<usize>)
        ensures
            r matches Ok(n) ==> {
                &&& n == 0 ==> *final(line) is Comment && line_text(*final(line)).len() == 0
                &&& n > 0 ==> is_sorted_line(*final(line)) && exists|s: Seq<char>|
                    s.len() > 0 && line_text(*final(line)) == strip_line_ending(s)
            },
    {
        *line = Line::Comment(String::new());
        let mut buf = String::new();
        match read_line(&mut self.inner, &mut buf) {
            Ok(0) => Ok(0),
            Ok(n) => {
                *line = classify_line(buf);
                Ok(n)
            },
            Err(e) => Err(e),
        }
    }
}

} // verus!
