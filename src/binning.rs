//! A hierarchical binning index over virtual offsets: candidate bins of an interval, and the
//! chunks of the compressed stream that may hold records overlapping it.
//!
//! Coordinates are 0-based and intervals half-open. The scheme covers `[0, 2^29)` with six
//! levels of bins; level `l` has `8^l` bins of `2^(29 - 3l)` positions each, and its bin ids
//! start at `(8^l - 1) / 7`.

use vstd::prelude::*;
use std::collections::HashMap;
use crate::virtual_offset::{Chunk, VirtualOffset};

verus! {

/// The end of the coordinate space that the bins cover.
pub const MAX_POSITION: u64 = 0x2000_0000;

/// The number of bin ids.
pub const BIN_COUNT: u64 = 37449;

/// The first bin id of level `l`.
pub open spec fn level_offset(l: int) -> int {
    if l == 0 {
        0
    } else if l == 1 {
        1
    } else if l == 2 {
        9
    } else if l == 3 {
        73
    } else if l == 4 {
        585
    } else {
        4681
    }
}

/// The number of positions that one bin of level `l` spans.
pub open spec fn level_span(l: int) -> int {
    if l == 0 {
        0x2000_0000
    } else if l == 1 {
        0x400_0000
    } else if l == 2 {
        0x80_0000
    } else if l == 3 {
        0x10_0000
    } else if l == 4 {
        0x2_0000
    } else {
        0x4000
    }
}

/// The level of a bin id.
pub open spec fn bin_level(id: int) -> int {
    if id < 1 {
        0
    } else if id < 9 {
        1
    } else if id < 73 {
        2
    } else if id < 585 {
        3
    } else if id < 4681 {
        4
    } else {
        5
    }
}

/// Whether `id` names a bin.
pub open spec fn is_bin(id: int) -> bool {
    0 <= id < BIN_COUNT
}

/// The first position of a bin.
pub open spec fn bin_start(id: int) -> int {
    (id - level_offset(bin_level(id))) * level_span(bin_level(id))
}

/// The position just past a bin.
pub open spec fn bin_end(id: int) -> int {
    bin_start(id) + level_span(bin_level(id))
}

/// Whether a bin overlaps the interval `[start, end)`.
pub open spec fn is_candidate(id: int, start: int, end: int) -> bool {
    is_bin(id) && start < end && bin_start(id) < end && start < bin_end(id)
}

/// Every bin lies within `[0, MAX_POSITION)`.
pub proof fn lemma_bin_within(id: int)
    requires
        is_bin(id),
    ensures
        0 <= bin_start(id) < bin_end(id) <= MAX_POSITION,
{
    let l = bin_level(id);
    let k = id - level_offset(l);
    if l == 0 {
        assert(k == 0);
    } else if l == 1 {
        assert(0 <= k < 8);
    } else if l == 2 {
        assert(0 <= k < 64);
    } else if l == 3 {
        assert(0 <= k < 512);
    } else if l == 4 {
        assert(0 <= k < 4096);
    } else {
        assert(0 <= k < 32768);
    }
    assert(0 <= k * level_span(l)) by (nonlinear_arith)
        requires
            0 <= k,
            level_span(l) > 0,
    ;
    assert(k * level_span(l) + level_span(l) <= MAX_POSITION) by (nonlinear_arith)
        requires
            level_span(l) * ((MAX_POSITION as int) / level_span(l)) == MAX_POSITION,
            k < (MAX_POSITION as int) / level_span(l),
            level_span(l) > 0,
    ;
}

/// `k * d <= x` exactly when `k <= x / d`, and `x < (k + 1) * d` exactly when `x / d <= k`.
proof fn lemma_floor_div(x: int, d: int, k: int)
    requires
        d > 0,
        x >= 0,
    ensures
        (k * d <= x) <==> (k <= x / d),
        (x < (k + 1) * d) <==> (x / d <= k),
{
    let q = x / d;
    let r = x % d;
    vstd::arithmetic::div_mod::lemma_fundamental_div_mod(x, d);
    assert((k * d <= x) <==> (k <= q)) by (nonlinear_arith)
        requires
            x == d * q + r,
            0 <= r < d,
            d > 0,
    ;
    assert((x < (k + 1) * d) <==> (q <= k)) by (nonlinear_arith)
        requires
            x == d * q + r,
            0 <= r < d,
            d > 0,
    ;
}

/// The bins of level `l` that overlap `[start, last]` are those with index from
/// `start / span` to `last / span`.
proof fn lemma_level_candidates(l: int, start: int, end: int, id: int)
    requires
        0 <= l <= 5,
        0 <= start < end,
        start < MAX_POSITION,
        level_offset(l) <= id < level_offset(l) + (MAX_POSITION as int) / level_span(l),
    ensures
        bin_level(id) == l,
        is_candidate(id, start, end) <==> level_offset(l) + start / level_span(l) <= id
            <= level_offset(l) + (if end < MAX_POSITION { end } else { MAX_POSITION as int } - 1)
            / level_span(l),
{
    let d = level_span(l);
    let k = id - level_offset(l);
    let last = (if end < MAX_POSITION { end } else { MAX_POSITION as int }) - 1;
    lemma_floor_div(last, d, k);
    lemma_floor_div(start, d, k);
    assert(k * d < MAX_POSITION) by (nonlinear_arith)
        requires
            k < (MAX_POSITION as int) / d,
            d > 0,
            (MAX_POSITION as int) % d == 0,
    ;
}

/// The bin parameters of level `l`: its first id and its span.
fn level_params(l: usize) -> (r: (u64, u64))
    requires
        l <= 5,
    ensures
        r.0 == level_offset(l as int),
        r.1 == level_span(l as int),
{
    if l == 0 {
        (0, 0x2000_0000)
    } else if l == 1 {
        (1, 0x400_0000)
    } else if l == 2 {
        (9, 0x80_0000)
    } else if l == 3 {
        (73, 0x10_0000)
    } else if l == 4 {
        (585, 0x2_0000)
    } else {
        (4681, 0x4000)
    }
}

/// The ids of the bins that overlap `[start, end)`.
#[verifier::rlimit(40)]
pub fn reg2bins(start: u64, end: u64) -> (r: Vec<u64>)
    ensures
        forall|id: u64| r@.contains(id) <==> is_candidate(id as int, start as int, end as int),
{
    let mut bins: Vec<u64> = Vec::new();
    if start >= end || start >= MAX_POSITION {
        assert forall|id: u64| !is_candidate(id as int, start as int, end as int) by {
            if is_bin(id as int) {
                lemma_bin_within(id as int);
            }
        }
        return bins;
    }
    let last: u64 = if end < MAX_POSITION {
        end - 1
    } else {
        MAX_POSITION - 1
    };
    let mut l: usize = 0;
    while l <= 5
        invariant
            0 <= start < end,
            start < MAX_POSITION,
            last == (if end < MAX_POSITION { end } else { MAX_POSITION as u64 }) - 1,
            l <= 6,
            forall|j: int|
                0 <= j < bins@.len() ==> is_candidate(
                    #[trigger] bins@[j] as int,
                    start as int,
                    end as int,
                ),
            forall|id: u64|
                is_candidate(id as int, start as int, end as int) && bin_level(id as int) < l
                    ==> #[trigger] bins@.contains(id),
        decreases 6 - l,
    {
        let (offset, span) = level_params(l);
        let first = offset + start / span;
        let stop = offset + last / span;
        let mut id = first;
        assert((MAX_POSITION as int) / level_span(l as int) * level_span(l as int) == MAX_POSITION);
        while id <= stop
            invariant
                0 <= start < end,
                start < MAX_POSITION,
                last == (if end < MAX_POSITION { end } else { MAX_POSITION as u64 }) - 1,
                l <= 5,
                offset == level_offset(l as int),
                span == level_span(l as int),
                first == offset + start / span,
                stop == offset + last / span,
                first <= id <= stop + 1,
                forall|j: int|
                    0 <= j < bins@.len() ==> is_candidate(
                        #[trigger] bins@[j] as int,
                        start as int,
                        end as int,
                    ),
                forall|x: u64|
                    is_candidate(x as int, start as int, end as int) && bin_level(x as int) < l
                        ==> #[trigger] bins@.contains(x),
                forall|x: u64| first <= x < id ==> #[trigger] bins@.contains(x),
            decreases stop + 1 - id,
        {
            proof {
                assert(last / span < MAX_POSITION / span) by {
                    lemma_floor_div(last as int, span as int, (MAX_POSITION / span) as int);
                }
                lemma_level_candidates(l as int, start as int, end as int, id as int);
            }
            let ghost before = bins@;
            bins.push(id);
            assert forall|x: u64| before.contains(x) implies #[trigger] bins@.contains(x) by {
                let j = choose|j: int| 0 <= j < before.len() && before[j] == x;
                assert(bins@[j] == x);
            }
            assert(bins@[before.len() as int] == id);
            id = id + 1;
        }
        assert forall|x: u64|
            is_candidate(x as int, start as int, end as int) && bin_level(x as int) < l + 1
                implies #[trigger] bins@.contains(x) by {
            if bin_level(x as int) == l {
                assert(last / span < MAX_POSITION / span) by {
                    lemma_floor_div(last as int, span as int, (MAX_POSITION / span) as int);
                }
                if x < offset + MAX_POSITION / span {
                    lemma_level_candidates(l as int, start as int, end as int, x as int);
                } else {
                    assert(bin_start(x as int) >= MAX_POSITION) by (nonlinear_arith)
                        requires
                            x >= offset + MAX_POSITION / span,
                            bin_start(x as int) == (x - offset) * span,
                            MAX_POSITION / span * span == MAX_POSITION,
                            span > 0,
                    ;
                }
            }
        }
        l = l + 1;
    }
    assert forall|id: u64| #[trigger] bins@.contains(id) implies is_candidate(
        id as int,
        start as int,
        end as int,
    ) by {
        let j = choose|j: int| 0 <= j < bins@.len() && bins@[j] == id;
    }
    bins
}

// ---------------------------------------------------------------------------------------------
// Merging chunks

/// The raw offset ranges of a list of chunks.
pub open spec fn chunk_views(cs: Seq<Chunk>) -> Seq<(u64, u64)> {
    Seq::new(cs.len(), |i: int| cs[i]@)
}

/// Whether some range of `cs` holds the offset `v`.
pub open spec fn covers(cs: Seq<(u64, u64)>, v: int) -> bool {
    exists|j: int| 0 <= j < cs.len() && #[trigger] cs[j].0 <= v < cs[j].1
}

/// Each range is non-empty, and each ends strictly before the next begins: the ranges are in
/// order of offset, and no two overlap or touch.
pub open spec fn is_normalized(cs: Seq<(u64, u64)>) -> bool {
    &&& forall|j: int| 0 <= j < cs.len() ==> #[trigger] cs[j].0 < cs[j].1
    &&& forall|i: int, j: int| 0 <= i < j < cs.len() ==> #[trigger] cs[i].1 < #[trigger] cs[j].0
}

proof fn lemma_chunk_views_push(s: Seq<Chunk>, c: Chunk)
    ensures
        chunk_views(s.push(c)) == chunk_views(s).push(c@),
{
    assert(chunk_views(s.push(c)) =~= chunk_views(s).push(c@));
}

/// What two lists cover together is what each covers.
pub proof fn lemma_covers_concat(a: Seq<(u64, u64)>, b: Seq<(u64, u64)>, v: int)
    ensures
        covers(a + b, v) <==> covers(a, v) || covers(b, v),
{
    if covers(a + b, v) {
        let j = choose|j: int| 0 <= j < (a + b).len() && #[trigger] (a + b)[j].0 <= v < (a
            + b)[j].1;
        if j < a.len() {
            assert(a[j] == (a + b)[j]);
        } else {
            assert(b[j - a.len()] == (a + b)[j]);
        }
    }
    if covers(a, v) {
        let j = choose|j: int| 0 <= j < a.len() && #[trigger] a[j].0 <= v < a[j].1;
        assert((a + b)[j] == a[j]);
    }
    if covers(b, v) {
        let j = choose|j: int| 0 <= j < b.len() && #[trigger] b[j].0 <= v < b[j].1;
        assert((a + b)[j + a.len()] == b[j]);
    }
}

/// One range covers what lies in it.
pub proof fn lemma_covers_one(x: (u64, u64), v: int)
    ensures
        covers(seq![x], v) <==> x.0 <= v < x.1,
{
    if x.0 <= v < x.1 {
        assert(seq![x][0] == x);
    }
}

/// Splitting a list at `i` splits what it covers.
proof fn lemma_covers_split(a: Seq<(u64, u64)>, i: int, v: int)
    requires
        0 <= i <= a.len(),
    ensures
        covers(a, v) <==> covers(a.subrange(0, i), v) || covers(a.subrange(i, a.len() as int), v),
{
    assert(a =~= a.subrange(0, i) + a.subrange(i, a.len() as int));
    lemma_covers_concat(a.subrange(0, i), a.subrange(i, a.len() as int), v);
}

/// Adds the chunk `c` to a normalized list of chunks: the result is normalized and covers
/// exactly what the list and the chunk cover.
#[verifier::rlimit(40)]
pub fn insert_chunk(merged: &Vec<Chunk>, c: Chunk) -> (r: Vec<Chunk>)
    requires
        is_normalized(chunk_views(merged@)),
    ensures
        is_normalized(chunk_views(r@)),
        forall|v: int|
            covers(chunk_views(r@), v) <==> covers(chunk_views(merged@), v) || (c@.0 <= v
                < c@.1),
{
    let ghost m = chunk_views(merged@);
    let n = merged.len();
    let mut out: Vec<Chunk> = Vec::new();
    let mut i: usize = 0;
    if !c.start().is_before(&c.end()) {
        while i < n
            invariant
                i <= n == merged@.len(),
                m == chunk_views(merged@),
                chunk_views(out@) == m.subrange(0, i as int),
            decreases n - i,
        {
            proof {
                lemma_chunk_views_push(out@, merged@[i as int]);
                assert(m.subrange(0, i + 1) =~= m.subrange(0, i as int).push(m[i as int]));
            }
            out.push(merged[i]);
            i = i + 1;
        }
        assert(m.subrange(0, n as int) =~= m);
        return out;
    }
    while i < n && merged[i].end().is_before(&c.start())
        invariant
            i <= n == merged@.len(),
            m == chunk_views(merged@),
            chunk_views(out@) == m.subrange(0, i as int),
            forall|j: int| 0 <= j < i ==> #[trigger] m[j].1 < c@.0,
        decreases n - i,
    {
        proof {
            lemma_chunk_views_push(out@, merged@[i as int]);
            assert(m.subrange(0, i + 1) =~= m.subrange(0, i as int).push(m[i as int]));
        }
        out.push(merged[i]);
        i = i + 1;
    }
    let i0 = i;
    let mut lo = c.start();
    let mut hi = c.end();
    while i < n && !hi.is_before(&merged[i].start())
        invariant
            i0 <= i <= n == merged@.len(),
            m == chunk_views(merged@),
            is_normalized(m),
            chunk_views(out@) == m.subrange(0, i0 as int),
            forall|j: int| 0 <= j < i0 ==> #[trigger] m[j].1 < c@.0,
            i0 < n ==> m[i0 as int].1 >= c@.0,
            lo@ <= c@.0 < c@.1 <= hi@,
            i0 > 0 ==> m[i0 - 1].1 < lo@,
            forall|v: int|
                (lo@ <= v < hi@) <==> (c@.0 <= v < c@.1) || covers(
                    m.subrange(i0 as int, i as int),
                    v,
                ),
        decreases n - i,
    {
        let s = merged[i].start();
        let e = merged[i].end();
        proof {
            let x = m[i as int];
            assert(x.1 >= lo@) by {
                if i > i0 {
                    assert(m[i0 as int].1 < m[i as int].0);
                }
            }
            assert forall|v: int|
                covers(m.subrange(i0 as int, i + 1), v) <==> covers(
                    m.subrange(i0 as int, i as int),
                    v,
                ) || (x.0 <= v < x.1) by {
                assert(m.subrange(i0 as int, i + 1) =~= m.subrange(i0 as int, i as int) + seq![x]);
                lemma_covers_concat(m.subrange(i0 as int, i as int), seq![x], v);
                lemma_covers_one(x, v);
            }
            if i0 > 0 {
                assert(m[i0 - 1].1 < m[i as int].0);
            }
        }
        let ghost (lo0, hi0) = (lo@, hi@);
        if s.is_before(&lo) {
            lo = s;
        }
        if hi.is_before(&e) {
            hi = e;
        }
        assert forall|v: int|
            (lo@ <= v < hi@) <==> (c@.0 <= v < c@.1) || #[trigger] covers(
                m.subrange(i0 as int, i + 1),
                v,
            ) by {
            assert((lo@ <= v < hi@) <==> (lo0 <= v < hi0) || (s@ <= v < e@));
            assert(s@ == m[i as int].0 && e@ == m[i as int].1);
            assert((lo0 <= v < hi0) <==> (c@.0 <= v < c@.1) || covers(
                m.subrange(i0 as int, i as int),
                v,
            ));
            assert(covers(m.subrange(i0 as int, i + 1), v) <==> covers(
                m.subrange(i0 as int, i as int),
                v,
            ) || (m[i as int].0 <= v < m[i as int].1));
        }
        i = i + 1;
    }
    let ghost i1 = i;
    let merged_chunk = Chunk::new(lo, hi);
    proof {
        lemma_chunk_views_push(out@, merged_chunk);
        assert(m.subrange(0, i0 as int).push((lo@, hi@)) =~= m.subrange(0, i0 as int).push(
            (lo@, hi@),
        ) + m.subrange(i1 as int, i1 as int));
    }
    out.push(merged_chunk);
    while i < n
        invariant
            i0 <= i1 <= i <= n == merged@.len(),
            m == chunk_views(merged@),
            is_normalized(m),
            lo@ < hi@,
            i0 > 0 ==> m[i0 - 1].1 < lo@,
            i1 < n ==> hi@ < m[i1 as int].0,
            chunk_views(out@) == m.subrange(0, i0 as int).push((lo@, hi@)) + m.subrange(
                i1 as int,
                i as int,
            ),
        decreases n - i,
    {
        proof {
            lemma_chunk_views_push(out@, merged@[i as int]);
            assert(m.subrange(0, i0 as int).push((lo@, hi@)) + m.subrange(i1 as int, i + 1) =~= (
            m.subrange(0, i0 as int).push((lo@, hi@)) + m.subrange(i1 as int, i as int)).push(
                m[i as int],
            ));
        }
        out.push(merged[i]);
        i = i + 1;
    }
    let ghost a = m.subrange(0, i0 as int);
    let ghost b = m.subrange(i1 as int, n as int);
    let ghost o = chunk_views(out@);
    assert(o =~= a + seq![(lo@, hi@)] + b);
    assert forall|v: int|
        covers(o, v) <==> covers(m, v) || (c@.0 <= v < c@.1) by {
        lemma_covers_concat(a + seq![(lo@, hi@)], b, v);
        lemma_covers_concat(a, seq![(lo@, hi@)], v);
        lemma_covers_one((lo@, hi@), v);
        lemma_covers_split(m, i0 as int, v);
        lemma_covers_split(m.subrange(i0 as int, n as int), i1 - i0, v);
        assert(m.subrange(i0 as int, n as int).subrange(0, i1 - i0) =~= m.subrange(
            i0 as int,
            i1 as int,
        ));
        assert(m.subrange(i0 as int, n as int).subrange(i1 - i0, n - i0) =~= b);
    }
    assert(is_normalized(o)) by {
        assert forall|p: int| 0 <= p < o.len() implies #[trigger] o[p] == (if p < i0 {
            m[p]
        } else if p == i0 {
            (lo@, hi@)
        } else {
            m[i1 + (p - i0 - 1)]
        }) by {}
        assert forall|p: int, q: int| 0 <= p < q < o.len() implies #[trigger] o[p].1
            < #[trigger] o[q].0 by {
            if q < i0 {
            } else if q == i0 {
                if p < i0 - 1 {
                    assert(m[p].1 < m[i0 - 1].0);
                }
            } else if p < i0 {
                assert(m[p].1 < lo@) by {
                    if p < i0 - 1 {
                        assert(m[p].1 < m[i0 - 1].0);
                    }
                }
                if q - i0 - 1 > 0 {
                    assert(m[i1 as int].1 < m[i1 + (q - i0 - 1)].0);
                }
            } else if p == i0 {
                if q - i0 - 1 > 0 {
                    assert(m[i1 as int].1 < m[i1 + (q - i0 - 1)].0);
                }
            } else {
            }
        }
    }
    out
}

// ---------------------------------------------------------------------------------------------
// The index

/// The bins of one reference sequence: each bin id with its chunks.
#[derive(Clone, Debug, Default)]
pub struct ReferenceSequence {
    bins: HashMap<u64, Vec<Chunk>>,
}

/// The chunks of each bin, as offset ranges.
pub open spec fn bins_view(bins: Map<u64, Vec<Chunk>>) -> Map<u64, Seq<(u64, u64)>> {
    Map::new(|id: u64| bins.contains_key(id), |id: u64| chunk_views(bins[id]@))
}

impl View for ReferenceSequence {
    type V = Map<u64, Seq<(u64, u64)>>;

    closed spec fn view(&self) -> Map<u64, Seq<(u64, u64)>> {
        bins_view(self.bins@)
    }
}

impl ReferenceSequence {
    /// A reference sequence with the given bins.
    pub fn new(bins: HashMap<u64, Vec<Chunk>>) -> (r: ReferenceSequence)
        ensures
            r@ == bins_view(bins@),
    {
        ReferenceSequence { bins }
    }

    /// The chunks of bin `id`, if the bin has any entry.
    pub fn get(&self, id: u64) -> (r: Option<&Vec<Chunk>>)
        ensures
            r matches Some(cs) ==> self@.contains_key(id) && chunk_views(cs@) == self@[id],
            r is None ==> !self@.contains_key(id),
    {
        broadcast use vstd::std_specs::hash::group_hash_axioms;

        self.bins.get(&id)
    }
}

/// Whether the offset `v` lies in a chunk of a bin of `bins` that overlaps `[start, end)`.
pub open spec fn indexed_covers(
    bins: Map<u64, Seq<(u64, u64)>>,
    start: int,
    end: int,
    v: int,
) -> bool {
    exists|id: u64|
        #![trigger bins[id]]
        is_candidate(id as int, start, end) && bins.contains_key(id) && covers(bins[id], v)
}

/// A binning index: the bins of each reference sequence, by reference sequence id.
#[derive(Clone, Debug, Default)]
pub struct BinningIndex {
    reference_sequences: Vec<ReferenceSequence>,
}

impl View for BinningIndex {
    type V = Seq<Map<u64, Seq<(u64, u64)>>>;

    closed spec fn view(&self) -> Seq<Map<u64, Seq<(u64, u64)>>> {
        Seq::new(self.reference_sequences@.len(), |i: int| self.reference_sequences@[i]@)
    }
}

/// Why an index query failed.
#[derive(Clone, Copy, Debug, PartialEq, Eq, Structural)]
pub enum QueryError {
    /// The index knows no reference sequence with this id.
    UnknownReferenceSequence(usize),
}

impl BinningIndex {
    /// An index over the given reference sequences, in id order.
    pub fn new(reference_sequences: Vec<ReferenceSequence>) -> (r: BinningIndex)
        ensures
            r@.len() == reference_sequences@.len(),
            forall|i: int| 0 <= i < r@.len() ==> r@[i] == #[trigger] reference_sequences@[i]@,
    {
        BinningIndex { reference_sequences }
    }

    /// The number of reference sequences.
    pub fn reference_sequence_count(&self) -> (r: usize)
        ensures
            r == self@.len(),
    {
        self.reference_sequences.len()
    }

    /// The bins of reference sequence `reference_sequence_id`, if the index knows it.
    pub fn reference_sequence(&self, reference_sequence_id: usize) -> (r: Option<
        &ReferenceSequence,
    >)
        ensures
            r matches Some(rs) ==> reference_sequence_id < self@.len() && rs@ == self@[reference_sequence_id as int],
            r is None ==> reference_sequence_id >= self@.len(),
    {
        if reference_sequence_id < self.reference_sequences.len() {
            Some(&self.reference_sequences[reference_sequence_id])
        } else {
            None
        }
    }

    /// The chunks that may hold records of reference sequence `reference_sequence_id`
    /// overlapping `[start, end)`: sorted by offset, non-overlapping, and covering exactly the
    /// offsets of the chunks of the bins that overlap the interval. An interval that no bin
    /// overlaps, or a reference sequence without bins, gives no chunks; only an unknown
    /// reference sequence is an error.
#[verifier::rlimit(40)]
    pub fn query(&self, reference_sequence_id: usize, start: u64, end: u64) -> (r: Result<
        Vec<Chunk>,
        QueryError,
    >)
        ensures
            r is Err <==> reference_sequence_id >= self@.len(),
            r matches Err(e) ==> e == QueryError::UnknownReferenceSequence(reference_sequence_id),
            r matches Ok(chunks) ==> {
                &&& is_normalized(chunk_views(chunks@))
                &&& forall|v: int|
                    covers(chunk_views(chunks@), v) <==> indexed_covers(
                        self@[reference_sequence_id as int],
                        start as int,
                        end as int,
                        v,
                    )
                &&& (start >= MAX_POSITION || start >= end) ==> chunks@.len() == 0
            },
    {
        if reference_sequence_id >= self.reference_sequences.len() {
            return Err(QueryError::UnknownReferenceSequence(reference_sequence_id));
        }
        let reference_sequence = &self.reference_sequences[reference_sequence_id];
        let ghost bins = reference_sequence@;
        assert(bins == self@[reference_sequence_id as int]);
        let ids = reg2bins(start, end);
        let mut merged: Vec<Chunk> = Vec::new();
        let mut t: usize = 0;
        while t < ids.len()
            invariant
                t <= ids@.len(),
                bins == reference_sequence@,
                forall|id: u64|
                    ids@.contains(id) <==> is_candidate(id as int, start as int, end as int),
                is_normalized(chunk_views(merged@)),
                forall|v: int|
                    covers(chunk_views(merged@), v) <==> exists|k: int|
                        #![trigger ids@[k]]
                        0 <= k < t && bins.contains_key(ids@[k]) && covers(bins[ids@[k]], v),
            decreases ids@.len() - t,
        {
            let id = ids[t];
            let ghost before = merged@;
            match reference_sequence.get(id) {
                Some(chunks) => {
                    let ghost cv = chunk_views(chunks@);
                    let mut j: usize = 0;
                    while j < chunks.len()
                        invariant
                            j <= chunks@.len(),
                            cv == chunk_views(chunks@),
                            bins.contains_key(id),
                            cv == bins[id],
                            is_normalized(chunk_views(merged@)),
                            forall|v: int|
                                #[trigger] covers(chunk_views(merged@), v) <==> covers(
                                    chunk_views(before),
                                    v,
                                ) || covers(cv.subrange(0, j as int), v),
                        decreases chunks@.len() - j,
                    {
                        let ghost prev = merged@;
                        assert(chunks@[j as int]@ == cv[j as int]);
                        merged = insert_chunk(&merged, chunks[j]);
                        proof {
                            assert forall|v: int|
                                #[trigger] covers(chunk_views(merged@), v) <==> covers(
                                    chunk_views(before),
                                    v,
                                ) || covers(cv.subrange(0, j + 1), v) by {
                                assert(cv.subrange(0, j + 1) =~= cv.subrange(0, j as int) + seq![
                                    cv[j as int],
                                ]);
                                lemma_covers_concat(
                                    cv.subrange(0, j as int),
                                    seq![cv[j as int]],
                                    v,
                                );
                                lemma_covers_one(cv[j as int], v);
                                assert(covers(chunk_views(merged@), v) <==> covers(
                                    chunk_views(prev),
                                    v,
                                ) || (cv[j as int].0 <= v < cv[j as int].1));
                                assert(covers(chunk_views(prev), v) <==> covers(
                                    chunk_views(before),
                                    v,
                                ) || covers(cv.subrange(0, j as int), v));
                            }
                        }
                        j = j + 1;
                    }
                    assert(cv.subrange(0, chunks@.len() as int) =~= cv);
                },
                None => {},
            }
            assert forall|v: int|
                #[trigger] covers(chunk_views(merged@), v) <==> covers(chunk_views(before), v) || (
                bins.contains_key(id) && covers(bins[id], v)) by {}
            proof {
                assert forall|v: int|
                    covers(chunk_views(merged@), v) <==> exists|k: int|
                        #![trigger ids@[k]]
                        0 <= k < t + 1 && bins.contains_key(ids@[k]) && covers(
                            bins[ids@[k]],
                            v,
                        ) by {
                    assert(ids@[t as int] == id);
                    assert(covers(chunk_views(before), v) <==> exists|k: int|
                        #![trigger ids@[k]]
                        0 <= k < t && bins.contains_key(ids@[k]) && covers(bins[ids@[k]], v));
                    if exists|k: int|
                        #![trigger ids@[k]]
                        0 <= k < t + 1 && bins.contains_key(ids@[k]) && covers(bins[ids@[k]], v) {
                        let k = choose|k: int|
                            #![trigger ids@[k]]
                            0 <= k < t + 1 && bins.contains_key(ids@[k]) && covers(
                                bins[ids@[k]],
                                v,
                            );
                        if k == t {
                        } else {
                        }
                    }
                }
            }
            t = t + 1;
        }
        assert forall|v: int|
            covers(chunk_views(merged@), v) <==> indexed_covers(
                bins,
                start as int,
                end as int,
                v,
            ) by {
            if indexed_covers(bins, start as int, end as int, v) {
                let id = choose|id: u64|
                    #![trigger bins[id]]
                    is_candidate(id as int, start as int, end as int) && bins.contains_key(id)
                        && covers(bins[id], v);
                assert(ids@.contains(id));
                let k = choose|k: int| 0 <= k < ids@.len() && ids@[k] == id;
                assert(bins.contains_key(ids@[k]) && covers(bins[ids@[k]], v));
            }
            if covers(chunk_views(merged@), v) {
                let k = choose|k: int|
                    #![trigger ids@[k]]
                    0 <= k < ids@.len() && bins.contains_key(ids@[k]) && covers(
                        bins[ids@[k]],
                        v,
                    );
                assert(ids@.contains(ids@[k]));
            }
        }
        proof {
            if start >= MAX_POSITION || start >= end {
                lemma_outside_interval_empty(bins, start as int, end as int, chunk_views(merged@));
            }
        }
        Ok(merged)
    }
}

/// Empty region: where no bin that overlaps `[start, end)` has chunks (in particular where the
/// interval is empty or starts at or past `MAX_POSITION`), a normalized list of chunks that
/// covers exactly what the index gives for the interval is empty. So `query` then gives no
/// chunks, and no error.
pub proof fn lemma_outside_interval_empty(
    bins: Map<u64, Seq<(u64, u64)>>,
    start: int,
    end: int,
    chunks: Seq<(u64, u64)>,
)
    requires
        (start >= MAX_POSITION || start >= end) || forall|id: u64|
            is_candidate(id as int, start, end) ==> !#[trigger] bins.contains_key(id),
        is_normalized(chunks),
        forall|v: int| covers(chunks, v) <==> indexed_covers(bins, start, end, v),
    ensures
        chunks.len() == 0,
{
    if chunks.len() > 0 {
        let v = chunks[0].0 as int;
        assert(covers(chunks, v));
        let id = choose|id: u64|
            #![trigger bins[id]]
            is_candidate(id as int, start, end) && bins.contains_key(id) && covers(bins[id], v);
        lemma_bin_within(id as int);
    }
}

} // verus!
