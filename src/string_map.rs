//! String dictionaries, and identifiers written as indices into them.
//!
//! A dictionary is an ordered set of distinct strings; the position of a string is its index.
//! A list of identifiers is written as the list of their indices, as a typed integer vector:
//! a descriptor byte holding the length (high nibble) and the integer type (low nibble:
//! 1, 2 or 3 for 8-, 16- or 32-bit integers), then the integers, little-endian. A length of
//! 15 or more is written as the nibble 15 followed by the length as a typed integer. An empty
//! list is the single byte 0.

use vstd::prelude::*;
use vstd::slice::slice_subrange;
use crate::value::{
    elements_bytes, le_bytes, le_value, lemma_elements_bytes_at, lemma_elements_bytes_push,
    lemma_le_bytes_of_value, lemma_le_value_of_bytes, push_le, span,
};

verus! {

/// An ordered set of distinct strings, each known by its position.
#[derive(Clone, Debug, Default, PartialEq, Eq)]
pub struct StringMap {
    entries: Vec<String>,
}

impl View for StringMap {
    type V = Seq<Seq<char>>;

    closed spec fn view(&self) -> Seq<Seq<char>> {
        Seq::new(self.entries@.len(), |i: int| self.entries@[i]@)
    }
}

/// No string stands twice in `m`.
pub open spec fn distinct(m: Seq<Seq<char>>) -> bool {
    forall|i: int, j: int| 0 <= i < j < m.len() ==> m[i] != m[j]
}

/// The position of `s` in `m` (meaningful where `m` holds `s`).
pub open spec fn index_in(m: Seq<Seq<char>>, s: Seq<char>) -> int {
    choose|k: int| 0 <= k < m.len() && m[k] == s
}

impl StringMap {
    /// Whether the entries are distinct.
    pub open spec fn wf(&self) -> bool {
        distinct(self@)
    }

    /// An empty dictionary.
    pub fn new() -> (r: StringMap)
        ensures
            r@ == Seq::<Seq<char>>::empty(),
            r.wf(),
    {
        let r = StringMap { entries: Vec::new() };
        assert(r@ =~= Seq::<Seq<char>>::empty());
        r
    }

    /// The number of entries.
    pub fn len(&self) -> (r: usize)
        ensures
            r == self@.len(),
    {
        self.entries.len()
    }

    /// The index of `s`, if the dictionary holds it.
    pub fn get_index_of(&self, s: &String) -> (r: Option<usize>)
        requires
            self.wf(),
        ensures
            r matches Some(i) ==> i < self@.len() && self@[i as int] == s@ && i == index_in(
                self@,
                s@,
            ),
            r is None ==> !self@.contains(s@),
    {
        let mut i: usize = 0;
        while i < self.entries.len()
            invariant
                self.wf(),
                i <= self.entries@.len(),
                forall|j: int| 0 <= j < i ==> self@[j] != s@,
            decreases self.entries@.len() - i,
        {
            if self.entries[i] == *s {
                let ghost k = index_in(self@, s@);
                assert(self@[i as int] == s@);
                assert(0 <= k < self@.len() && self@[k] == s@);
                proof {
                    if k < i as int {
                        assert(self@[k] != self@[i as int]);
                    } else if k > i as int {
                        assert(self@[i as int] != self@[k]);
                    }
                }
                return Some(i);
            }
            i = i + 1;
        }
        None
    }

    /// The string at index `i`, if there is one.
    pub fn get_index(&self, i: usize) -> (r: Option<&String>)
        ensures
            r matches Some(s) ==> i < self@.len() && s@ == self@[i as int],
            r is None ==> i >= self@.len(),
    {
        if i < self.entries.len() {
            Some(&self.entries[i])
        } else {
            None
        }
    }

    /// Adds `s` at the end unless the dictionary holds it already; returns its index.
    pub fn insert(&mut self, s: String) -> (r: usize)
        requires
            old(self).wf(),
        ensures
            final(self).wf(),
            r < final(self)@.len(),
            final(self)@[r as int] == s@,
            old(self)@.contains(s@) ==> final(self)@ == old(self)@,
            !old(self)@.contains(s@) ==> final(self)@ == old(self)@.push(s@),
    {
        match self.get_index_of(&s) {
            Some(i) => i,
            None => {
                let ghost before = self@;
                self.entries.push(s);
                assert(self@ =~= before.push(s@));
                self.entries.len() - 1
            },
        }
    }
}

/// The integer type code (1, 2 or 3) whose range holds every element of `v`.
pub open spec fn vector_code(v: Seq<int>) -> u8 {
    if forall|i: int| 0 <= i < v.len() ==> v[i] <= 0x7f {
        1
    } else if forall|i: int| 0 <= i < v.len() ==> v[i] <= 0x7fff {
        2
    } else {
        3
    }
}

/// The integer type code (1, 2 or 3) whose range holds `n`.
pub open spec fn int_code(n: int) -> u8 {
    if n <= 0x7f {
        1
    } else if n <= 0x7fff {
        2
    } else {
        3
    }
}

/// The byte width of an integer type code.
pub open spec fn code_width(c: u8) -> nat {
    if c == 1 {
        1
    } else if c == 2 {
        2
    } else {
        4
    }
}

/// The largest index that an integer type code can hold.
pub open spec fn code_max(c: u8) -> int {
    if c == 1 {
        0x7f
    } else if c == 2 {
        0x7fff
    } else {
        0x7fff_ffff
    }
}

/// A non-negative integer written as a typed integer of its smallest type.
pub open spec fn typed_int_bytes(n: int) -> Seq<u8> {
    seq![(0x10 + int_code(n)) as u8] + le_bytes(n, code_width(int_code(n)))
}

/// The descriptor of a vector of `n` integers of type code `c`.
pub open spec fn vector_head(n: int, c: u8) -> Seq<u8> {
    if n < 15 {
        seq![(n * 16 + c) as u8]
    } else {
        seq![(0xf0 + c) as u8] + typed_int_bytes(n)
    }
}

/// The wire bytes of a list of indices.
pub open spec fn encoded_indices(v: Seq<int>) -> Seq<u8> {
    if v.len() == 0 {
        seq![0u8]
    } else {
        vector_head(v.len() as int, vector_code(v)) + elements_bytes(
            v,
            code_width(vector_code(v)),
        )
    }
}

/// The integers of a vector of indices.
pub open spec fn as_ints(v: Seq<usize>) -> Seq<int> {
    Seq::new(v.len(), |i: int| v[i] as int)
}

/// The indices of identifiers in a dictionary.
pub open spec fn indices_in(m: Seq<Seq<char>>, ids: Seq<Seq<char>>) -> Seq<int> {
    Seq::new(ids.len(), |i: int| index_in(m, ids[i]))
}

/// The views of a list of strings.
pub open spec fn views(v: Seq<String>) -> Seq<Seq<char>> {
    Seq::new(v.len(), |i: int| v[i]@)
}

/// Writes the descriptor of a vector of `n` integers of type code `c`.
fn write_vector_head(dst: &mut Vec<u8>, n: usize, c: u8)
    requires
        1 <= c <= 3,
        n <= 0x7fff_ffff,
    ensures
        final(dst)@ == old(dst)@ + vector_head(n as int, c),
{
    let ghost start = dst@;
    if n < 15 {
        dst.push((n as u8) * 16 + c);
    } else {
        dst.push(0xf0 + c);
        let lc: u8 = if n <= 0x7f {
            1
        } else if n <= 0x7fff {
            2
        } else {
            3
        };
        let lw: usize = if lc == 1 {
            1
        } else if lc == 2 {
            2
        } else {
            4
        };
        dst.push(0x10 + lc);
        push_le(dst, n as u32, lw);
    }
    assert(dst@ =~= start + vector_head(n as int, c));
}

/// Writes a list of indices as a typed integer vector.
#[verifier::rlimit(40)]
pub fn write_string_map_indices(dst: &mut Vec<u8>, indices: &Vec<usize>)
    requires
        forall|i: int| 0 <= i < indices@.len() ==> #[trigger] indices@[i] <= 0x7fff_ffff,
        indices@.len() <= 0x7fff_ffff,
    ensures
        final(dst)@ == old(dst)@ + encoded_indices(as_ints(indices@)),
{
    let ghost v = as_ints(indices@);
    let ghost start = dst@;
    if indices.len() == 0 {
        dst.push(0);
        assert(dst@ =~= start + encoded_indices(v));
        return;
    }
    let mut max: usize = 0;
    let mut i: usize = 0;
    while i < indices.len()
        invariant
            i <= indices@.len(),
            max <= 0x7fff_ffff,
            forall|j: int| 0 <= j < indices@.len() ==> #[trigger] indices@[j] <= 0x7fff_ffff,
            forall|j: int| 0 <= j < i ==> #[trigger] indices@[j] <= max,
            i > 0 ==> exists|j: int| 0 <= j < i && indices@[j] == max,
            i == 0 ==> max == 0,
        decreases indices@.len() - i,
    {
        if indices[i] > max {
            max = indices[i];
        }
        i = i + 1;
    }
    let c: u8 = if max <= 0x7f {
        1
    } else if max <= 0x7fff {
        2
    } else {
        3
    };
    proof {
        let j = choose|j: int| 0 <= j < indices@.len() && indices@[j] == max;
        assert(v[j] == max);
        assert(c == vector_code(v));
    }
    let w: usize = if c == 1 {
        1
    } else if c == 2 {
        2
    } else {
        4
    };
    write_vector_head(dst, indices.len(), c);
    let ghost head = dst@;
    let mut k: usize = 0;
    while k < indices.len()
        invariant
            k <= indices@.len(),
            w == code_width(c),
            c == vector_code(v),
            v == as_ints(indices@),
            forall|j: int| 0 <= j < indices@.len() ==> #[trigger] indices@[j] <= max,
            max <= code_max(c),
            dst@ == head + elements_bytes(v.subrange(0, k as int), w as nat),
        decreases indices@.len() - k,
    {
        let x = indices[k] as u32;
        proof {
            assert(v.subrange(0, k + 1) =~= v.subrange(0, k as int).push(v[k as int]));
            lemma_elements_bytes_push(v.subrange(0, k as int), v[k as int], w as nat);
        }
        push_le(dst, x, w);
        k = k + 1;
        assert(dst@ =~= head + elements_bytes(v.subrange(0, k as int), w as nat));
    }
    assert(v.subrange(0, indices@.len() as int) =~= v);
    assert(dst@ =~= start + encoded_indices(v));
}

/// Why identifiers could not be written or read as dictionary indices.
#[derive(Clone, Debug, PartialEq, Eq)]
pub enum StringMapError {
    /// An identifier is not in the dictionary.
    UnknownIdentifier(String),
    /// An index is past the end of the dictionary.
    IndexOutOfBounds(usize),
    /// The bytes are not a well-formed index vector.
    Malformed,
}

/// Writes identifiers (such as the filters applied to a record) as their indices in the
/// dictionary. Nothing is written when an identifier is missing from the dictionary; the first
/// missing one is reported.
pub fn write_filters(dst: &mut Vec<u8>, string_map: &StringMap, filters: &Vec<String>) -> (r:
    Result<(), StringMapError>)
    requires
        string_map.wf(),
        string_map@.len() <= 0x8000_0000,
        filters@.len() <= 0x7fff_ffff,
    ensures
        r is Ok <==> forall|i: int|
            0 <= i < filters@.len() ==> string_map@.contains(#[trigger] filters@[i]@),
        r is Ok ==> final(dst)@ == old(dst)@ + encoded_indices(
            indices_in(string_map@, views(filters@)),
        ),
        r matches Err(e) ==> final(dst)@ == old(dst)@ && exists|i: int|
            0 <= i < filters@.len() && !string_map@.contains(filters@[i]@) && (forall|j: int|
                0 <= j < i ==> string_map@.contains(#[trigger] filters@[j]@))
                && e == StringMapError::UnknownIdentifier(filters@[i]),
{
    let mut indices: Vec<usize> = Vec::new();
    let mut i: usize = 0;
    while i < filters.len()
        invariant
            string_map.wf(),
            string_map@.len() <= 0x8000_0000,
            i <= filters@.len(),
            indices@.len() == i,
            forall|j: int| 0 <= j < i ==> string_map@.contains(#[trigger] filters@[j]@),
            forall|j: int|
                0 <= j < i ==> #[trigger] indices@[j] as int == index_in(
                    string_map@,
                    filters@[j]@,
                ) && indices@[j] < string_map@.len(),
        decreases filters@.len() - i,
    {
        match string_map.get_index_of(&filters[i]) {
            Some(k) => {
                assert(string_map@.contains(filters@[i as int]@));
                indices.push(k);
            },
            None => {
                return Err(StringMapError::UnknownIdentifier(filters[i].clone()));
            },
        }
        i = i + 1;
    }
    assert(as_ints(indices@) =~= indices_in(string_map@, views(filters@)));
    write_string_map_indices(dst, &indices);
    Ok(())
}

// ---------------------------------------------------------------------------------------------
// Reading indices back

/// The integers of `n` elements of `w` bytes each, read from `s` at `at`.
pub open spec fn read_elements(s: Seq<u8>, at: int, n: int, w: nat) -> Seq<int> {
    Seq::new(n as nat, |j: int| le_value(s.subrange(at + j * w, at + j * w + w)))
}

/// Where the elements of an index vector start, and how many there are, from its descriptor:
/// the count in the descriptor's high nibble, or, where that nibble is 15, in the typed integer
/// that follows it. `None` where the descriptor or the count is malformed or cut short.
pub open spec fn read_vector_length(s: Seq<u8>) -> Option<(int, int)>
    recommends
        s.len() >= 1,
{
    let n0 = s[0] / 16;
    if n0 < 15 {
        Some((1, n0 as int))
    } else if s.len() < 2 || s[1] < 0x11 || s[1] > 0x13 {
        None
    } else {
        let lc = (s[1] - 0x10) as u8;
        let lw = code_width(lc);
        if s.len() < 2 + lw {
            None
        } else {
            let n = le_value(s.subrange(2, 2 + lw as int));
            if n > code_max(lc) {
                None
            } else {
                Some((2 + lw as int, n))
            }
        }
    }
}

/// What reading an index vector from the start of `s` gives: the indices and the number of
/// bytes they took, or `None` where `s` does not start with a well-formed index vector.
/// The single byte 0 is an empty vector; otherwise the descriptor's low nibble must be 1, 2
/// or 3, all elements must be present, and none may be negative.
pub open spec fn read_index_vector(s: Seq<u8>) -> Option<(Seq<int>, int)> {
    if s.len() == 0 {
        None
    } else if s[0] == 0 {
        Some((Seq::empty(), 1))
    } else {
        let c = (s[0] % 16) as u8;
        if c < 1 || c > 3 {
            None
        } else {
            match read_vector_length(s) {
                None => None,
                Some((at, n)) => {
                    let w = code_width(c);
                    if s.len() < at + n * w {
                        None
                    } else {
                        let v = read_elements(s, at, n, w);
                        if forall|j: int| 0 <= j < n ==> #[trigger] v[j] <= code_max(c) {
                            Some((v, at + n * w))
                        } else {
                            None
                        }
                    }
                },
            }
        }
    }
}

/// The indices that reading an index vector from `s` gives (none where it fails).
pub open spec fn read_indices(s: Seq<u8>) -> Seq<int> {
    match read_index_vector(s) {
        Some((v, _)) => v,
        None => Seq::empty(),
    }
}

/// Reading elements back from their bytes gives them back.
proof fn lemma_read_elements(v: Seq<int>, w: nat, pre: Seq<u8>, rest: Seq<u8>)
    requires
        w == 1 || w == 2 || w == 4,
        forall|j: int| 0 <= j < v.len() ==> 0 <= #[trigger] v[j] < span(w),
    ensures
        read_elements(pre + elements_bytes(v, w) + rest, pre.len() as int, v.len() as int, w)
            == v,
{
    let s = pre + elements_bytes(v, w) + rest;
    let at = pre.len() as int;
    let e = elements_bytes(v, w);
    assert forall|j: int| 0 <= j < v.len() implies #[trigger] read_elements(
        s,
        at,
        v.len() as int,
        w,
    )[j] == v[j] by {
        lemma_elements_bytes_at(v, w, j);
        assert(s.subrange(at + j * w, at + j * w + w) =~= e.subrange(j * w, j * w + w));
        lemma_le_value_of_bytes(v[j], w);
    }
    assert(read_elements(s, at, v.len() as int, w) =~= v);
}

/// The descriptor of a non-empty vector reads back as its length and element type.
proof fn lemma_read_vector_head(n: int, c: u8, s: Seq<u8>)
    requires
        1 <= c <= 3,
        1 <= n <= 0x7fff_ffff,
        s.len() >= vector_head(n, c).len(),
        s.subrange(0, vector_head(n, c).len() as int) == vector_head(n, c),
    ensures
        s[0] != 0,
        (s[0] % 16) as u8 == c,
        read_vector_length(s) == Some((vector_head(n, c).len() as int, n)),
{
    let head = vector_head(n, c);
    assert(s[0] == head[0]);
    if n < 15 {
        assert(s[0] / 16 == n && s[0] % 16 == c);
    } else {
        let lc = int_code(n);
        let lw = code_width(lc);
        assert(s[1] == head[1]);
        assert(s[0] / 16 == 15 && s[0] % 16 == c);
        let t = typed_int_bytes(n);
        assert(head == seq![(0xf0 + c) as u8] + t);
        assert forall|k: int| 0 <= k < lw implies s[2 + k] == #[trigger] le_bytes(n, lw)[k] by {
            assert(s.subrange(0, head.len() as int)[2 + k] == head[2 + k]);
            assert(head[2 + k] == t[1 + k]);
        }
        assert(s.subrange(2, 2 + lw as int) =~= le_bytes(n, lw));
        lemma_le_value_of_bytes(n, lw);
    }
}

/// Index round trip: the bytes that `write_string_map_indices` writes for `v`, followed by
/// anything, read back as `v`, taking exactly those bytes.
pub proof fn lemma_indices_round_trip(v: Seq<int>, rest: Seq<u8>)
    requires
        forall|i: int| 0 <= i < v.len() ==> 0 <= #[trigger] v[i] <= 0x7fff_ffff,
        v.len() <= 0x7fff_ffff,
    ensures
        read_index_vector(encoded_indices(v) + rest) == Some(
            (v, encoded_indices(v).len() as int),
        ),
{
    let e = encoded_indices(v);
    let s = e + rest;
    if v.len() == 0 {
        assert(s[0] == 0);
        assert(Seq::<int>::empty() =~= v);
        return;
    }
    let c = vector_code(v);
    let w = code_width(c);
    let n = v.len() as int;
    let head = vector_head(n, c);
    let at = head.len() as int;
    assert(forall|j: int| 0 <= j < v.len() ==> #[trigger] v[j] <= code_max(c));
    assert(forall|j: int| 0 <= j < v.len() ==> 0 <= #[trigger] v[j] < span(w));
    assert(s =~= head + elements_bytes(v, w) + rest);
    assert(s.subrange(0, at) =~= head);
    lemma_read_vector_head(n, c, s);
    lemma_read_elements(v, w, head, rest);
    assert(s.len() >= at + n * w);
    assert(at + n * w == e.len());
}

/// Reads an index vector.
#[verifier::rlimit(40)]
pub fn read_string_map_indices(src: &mut &[u8]) -> (r: Result<Vec<usize>, StringMapError>)
    ensures
        r is Ok <==> read_index_vector(old(src)@) is Some,
        r matches Ok(v) ==> {
            let (w, n) = read_index_vector(old(src)@)->0;
            &&& as_ints(v@) == w
            &&& final(src)@ == old(src)@.subrange(n, old(src)@.len() as int)
        },
        r matches Err(e) ==> e == StringMapError::Malformed,
{
    let s: &[u8] = *src;
    let ghost g = s@;
    if s.len() == 0 {
        return Err(StringMapError::Malformed);
    }
    if s[0] == 0 {
        *src = slice_subrange(s, 1, s.len());
        let empty: Vec<usize> = Vec::new();
        assert(as_ints(empty@) =~= Seq::<int>::empty());
        return Ok(empty);
    }
    let c: u8 = s[0] % 16;
    if c < 1 || c > 3 {
        return Err(StringMapError::Malformed);
    }
    let w: usize = if c == 1 {
        1
    } else if c == 2 {
        2
    } else {
        4
    };
    let n0: u8 = s[0] / 16;
    let (at, n): (usize, usize) = if n0 < 15 {
        (1, n0 as usize)
    } else {
        if s.len() < 2 || s[1] < 0x11 || s[1] > 0x13 {
            return Err(StringMapError::Malformed);
        }
        let lc: u8 = s[1] - 0x10;
        let lw: usize = if lc == 1 {
            1
        } else if lc == 2 {
            2
        } else {
            4
        };
        if s.len() < 2 + lw {
            return Err(StringMapError::Malformed);
        }
        let x: u32 = if lw == 1 {
            s[2] as u32
        } else if lw == 2 {
            s[2] as u32 + 0x100 * (s[3] as u32)
        } else {
            s[2] as u32 + 0x100 * (s[3] as u32) + 0x1_0000 * (s[4] as u32) + 0x100_0000 * (
            s[5] as u32)
        };
        assert(x as int == le_value(g.subrange(2, 2 + lw as int)));
        let max: u32 = if lc == 1 {
            0x7f
        } else if lc == 2 {
            0x7fff
        } else {
            0x7fff_ffff
        };
        if x > max {
            return Err(StringMapError::Malformed);
        }
        (2 + lw, x as usize)
    };
    assert(read_vector_length(g) == Some((at as int, n as int)));
    assert((n as u64) * (w as u64) <= 0x2_0000_0000) by (nonlinear_arith)
        requires
            n <= 0x7fff_ffff,
            w <= 4,
    ;
    if (s.len() - at) as u64 / (w as u64) < n as u64 {
        assert(s.len() < at + n * w) by (nonlinear_arith)
            requires
                (s.len() - at) / (w as int) < n,
                w > 0,
                s.len() >= at,
        ;
        return Err(StringMapError::Malformed);
    }
    assert(at + n * w <= s.len()) by (nonlinear_arith)
        requires
            (s.len() - at) / (w as int) >= n,
            w > 0,
            s.len() >= at,
    ;
    let max: u32 = if c == 1 {
        0x7f
    } else if c == 2 {
        0x7fff
    } else {
        0x7fff_ffff
    };
    let ghost rv = read_elements(g, at as int, n as int, w as nat);
    let mut out: Vec<usize> = Vec::new();
    let mut i: usize = 0;
    let mut pos: usize = at;
    while i < n
        invariant
            g == s@,
            g == old(src)@,
            w == code_width(c),
            1 <= c <= 3,
            max == code_max(c),
            at + n * w <= s@.len(),
            i <= n,
            pos == at + i * w,
            rv == read_elements(g, at as int, n as int, w as nat),
            g.len() > 0 && g[0] != 0,
            c == (g[0] % 16) as u8,
            read_vector_length(g) == Some((at as int, n as int)),
            out@.len() == i,
            forall|j: int| 0 <= j < i ==> #[trigger] out@[j] as int == rv[j],
            forall|j: int| 0 <= j < i ==> #[trigger] rv[j] <= max,
        decreases n - i,
    {
        assert(pos + w <= at + n * w) by (nonlinear_arith)
            requires
                pos == at + i * w,
                i < n,
        ;
        let x: u32 = if w == 1 {
            s[pos] as u32
        } else if w == 2 {
            s[pos] as u32 + 0x100 * (s[pos + 1] as u32)
        } else {
            s[pos] as u32 + 0x100 * (s[pos + 1] as u32) + 0x1_0000 * (s[pos + 2] as u32)
                + 0x100_0000 * (s[pos + 3] as u32)
        };
        assert(x as int == rv[i as int]);
        if x > max {
            assert(rv[i as int] > code_max(c));
            assert(read_index_vector(g) is None);
            return Err(StringMapError::Malformed);
        }
        out.push(x as usize);
        pos = pos + w;
        i = i + 1;
        assert(pos == at + i * w) by (nonlinear_arith)
            requires
                pos == at + (i - 1) * w + w,
        ;
    }
    assert(as_ints(out@) =~= rv);
    *src = slice_subrange(s, pos, s.len());
    Ok(out)
}

/// Reads identifiers written as dictionary indices, and resolves each index to its string.
pub fn read_filters(src: &mut &[u8], string_map: &StringMap) -> (r: Result<
    Vec<String>,
    StringMapError,
>)
    ensures
        r is Ok <==> (read_index_vector(old(src)@) matches Some((v, _)) && forall|i: int|
            0 <= i < v.len() ==> #[trigger] v[i] < string_map@.len()),
        r matches Ok(ids) ==> (read_index_vector(old(src)@) matches Some((v, _)) && ids@.len()
            == v.len() && forall|i: int|
            0 <= i < v.len() ==> #[trigger] ids@[i]@ == string_map@[v[i]]),
        r matches Err(e) ==> (read_index_vector(old(src)@) is None && e
            == StringMapError::Malformed) || (read_index_vector(old(src)@) matches Some((v, _))
            && exists|i: int|
            0 <= i < v.len() && v[i] >= string_map@.len() && e
                == StringMapError::IndexOutOfBounds(v[i] as usize)),
{
    let ghost s0 = src@;
    let indices = match read_string_map_indices(src) {
        Ok(v) => v,
        Err(e) => return Err(e),
    };
    let ghost v = as_ints(indices@);
    assert(read_index_vector(s0) is Some && read_indices(s0) == v);
    let mut ids: Vec<String> = Vec::new();
    let mut i: usize = 0;
    while i < indices.len()
        invariant
            v == as_ints(indices@),
            s0 == old(src)@,
            read_index_vector(s0) is Some && read_indices(s0) == v,
            i <= indices@.len(),
            ids@.len() == i,
            forall|j: int| 0 <= j < i ==> #[trigger] v[j] < string_map@.len(),
            forall|j: int| 0 <= j < i ==> #[trigger] ids@[j]@ == string_map@[v[j]],
        decreases indices@.len() - i,
    {
        match string_map.get_index(indices[i]) {
            Some(s) => ids.push(s.clone()),
            None => {
                assert(v[i as int] >= string_map@.len());
                return Err(StringMapError::IndexOutOfBounds(indices[i]));
            },
        }
        i = i + 1;
    }
    Ok(ids)
}

/// Dictionary round trip: identifiers that the dictionary holds, written as their indices and
/// read back, resolve to the same identifiers.
pub proof fn lemma_filters_round_trip(m: Seq<Seq<char>>, ids: Seq<Seq<char>>, rest: Seq<u8>)
    requires
        distinct(m),
        m.len() <= 0x8000_0000,
        ids.len() <= 0x7fff_ffff,
        forall|i: int| 0 <= i < ids.len() ==> m.contains(#[trigger] ids[i]),
    ensures
        ({
            let v = indices_in(m, ids);
            &&& read_index_vector(encoded_indices(v) + rest) == Some(
                (v, encoded_indices(v).len() as int),
            )
            &&& forall|i: int| 0 <= i < v.len() ==> 0 <= #[trigger] v[i] < m.len()
            &&& forall|i: int| 0 <= i < v.len() ==> m[#[trigger] v[i]] == ids[i]
        }),
{
    let v = indices_in(m, ids);
    assert forall|i: int| 0 <= i < v.len() implies 0 <= #[trigger] v[i] < m.len() && m[v[i]]
        == ids[i] by {
        assert(m.contains(ids[i]));
    }
    lemma_indices_round_trip(v, rest);
}

} // verus!
