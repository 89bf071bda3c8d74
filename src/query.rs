//! The decisions of a region query over a block-compressed record stream.
//!
//! A query walks its chunks in order: it seeks to the start of a chunk, reads records while the
//! stream position lies before the chunk's end, and keeps each record whose reference sequence
//! and interval meet the query's. The reading itself is done by the caller: `next_step` tells
//! it what to do at the current position, and `intersects` whether a decoded record is kept.

use vstd::prelude::*;
use crate::binning::{
    chunk_views, covers, indexed_covers, is_normalized, lemma_covers_concat, lemma_covers_one,
};
use crate::virtual_offset::{Chunk, VirtualOffset};

verus! {

/// Where a query stands.
#[derive(Clone, Copy, Debug, PartialEq, Eq, Structural)]
pub enum QueryState {
    /// No chunk has been entered yet.
    AtQueryStart,
    /// Reading inside the chunk with this index.
    InChunk(usize),
    /// Finished; nothing more will be read or kept.
    Exhausted,
}

/// What the caller is to do next.
#[derive(Clone, Copy, Debug, PartialEq, Eq, Structural)]
pub enum Step {
    /// Move the stream to this offset, then ask again.
    Seek(VirtualOffset),
    /// Decode the record at the current position, then ask again from the new position.
    Read,
    /// The query is over.
    Done,
}

/// A [`Step`] with its offset as a raw value.
pub enum StepView {
    Seek(u64),
    Read,
    Done,
}

impl View for Step {
    type V = StepView;

    open spec fn view(&self) -> StepView {
        match self {
            Step::Seek(o) => StepView::Seek(o@),
            Step::Read => StepView::Read,
            Step::Done => StepView::Done,
        }
    }
}

/// The next state and step of a query in `state` over `chunks` at stream position `position`.
pub open spec fn transition(state: QueryState, chunks: Seq<(u64, u64)>, position: u64) -> (
    QueryState,
    StepView,
) {
    match state {
        QueryState::AtQueryStart => if chunks.len() == 0 {
            (QueryState::Exhausted, StepView::Done)
        } else {
            (QueryState::InChunk(0), StepView::Seek(chunks[0].0))
        },
        QueryState::InChunk(i) => if i < chunks.len() && position < chunks[i as int].1 {
            (QueryState::InChunk(i), StepView::Read)
        } else if i + 1 < chunks.len() {
            (QueryState::InChunk((i + 1) as usize), StepView::Seek(chunks[i + 1].0))
        } else {
            (QueryState::Exhausted, StepView::Done)
        },
        QueryState::Exhausted => (QueryState::Exhausted, StepView::Done),
    }
}

/// Whether a record of reference sequence `rid` spanning `[start, end)` meets the query
/// `(qid, [qstart, qend))`.
pub open spec fn record_matches(
    qid: usize,
    qstart: u64,
    qend: u64,
    rid: usize,
    start: u64,
    end: u64,
) -> bool {
    rid == qid && start < qend && qstart < end
}

/// The state of a region query.
#[derive(Clone, Debug)]
pub struct Query {
    chunks: Vec<Chunk>,
    reference_sequence_id: usize,
    start: u64,
    end: u64,
    state: QueryState,
}

/// The content of a [`Query`].
pub struct QueryView {
    pub chunks: Seq<(u64, u64)>,
    pub reference_sequence_id: usize,
    pub start: u64,
    pub end: u64,
    pub state: QueryState,
}

impl View for Query {
    type V = QueryView;

    closed spec fn view(&self) -> QueryView {
        QueryView {
            chunks: chunk_views(self.chunks@),
            reference_sequence_id: self.reference_sequence_id,
            start: self.start,
            end: self.end,
            state: self.state,
        }
    }
}

impl Query {
    /// A query for the records of reference sequence `reference_sequence_id` that overlap
    /// `[start, end)`, reading the given chunks in order.
    pub fn new(chunks: Vec<Chunk>, reference_sequence_id: usize, start: u64, end: u64) -> (r:
        Query)
        ensures
            r@.chunks == chunk_views(chunks@),
            r@.reference_sequence_id == reference_sequence_id,
            r@.start == start,
            r@.end == end,
            r@.state == QueryState::AtQueryStart,
    {
        Query { chunks, reference_sequence_id, start, end, state: QueryState::AtQueryStart }
    }

    /// Where the query stands.
    pub fn state(&self) -> (r: QueryState)
        ensures
            r == self@.state,
    {
        self.state
    }

    /// Decides what to do at stream position `position`, and moves to the next state.
    pub fn next_step(&mut self, position: VirtualOffset) -> (r: Step)
        ensures
            (final(self)@.state, r@) == transition(old(self)@.state, old(self)@.chunks, position@),
            final(self)@.chunks == old(self)@.chunks,
            final(self)@.reference_sequence_id == old(self)@.reference_sequence_id,
            final(self)@.start == old(self)@.start,
            final(self)@.end == old(self)@.end,
    {
        match self.state {
            QueryState::AtQueryStart => {
                if self.chunks.len() == 0 {
                    self.state = QueryState::Exhausted;
                    Step::Done
                } else {
                    self.state = QueryState::InChunk(0);
                    Step::Seek(self.chunks[0].start())
                }
            },
            QueryState::InChunk(i) => {
                if i < self.chunks.len() && position.is_before(&self.chunks[i].end()) {
                    Step::Read
                } else if i < self.chunks.len() && i + 1 < self.chunks.len() {
                    self.state = QueryState::InChunk(i + 1);
                    Step::Seek(self.chunks[i + 1].start())
                } else {
                    self.state = QueryState::Exhausted;
                    Step::Done
                }
            },
            QueryState::Exhausted => Step::Done,
        }
    }

    /// Ends the query, as after a read error or the end of the stream.
    pub fn finish(&mut self)
        ensures
            final(self)@.state == QueryState::Exhausted,
            final(self)@.chunks == old(self)@.chunks,
            final(self)@.reference_sequence_id == old(self)@.reference_sequence_id,
            final(self)@.start == old(self)@.start,
            final(self)@.end == old(self)@.end,
    {
        self.state = QueryState::Exhausted;
    }

    /// Whether a decoded record of reference sequence `reference_sequence_id` spanning
    /// `[start, end)` is to be kept: it is on the query's reference sequence and its interval
    /// overlaps the query's.
    pub fn intersects(&self, reference_sequence_id: usize, start: u64, end: u64) -> (r: bool)
        ensures
            r == record_matches(
                self@.reference_sequence_id,
                self@.start,
                self@.end,
                reference_sequence_id,
                start,
                end,
            ),
    {
        reference_sequence_id == self.reference_sequence_id && start < self.end && self.start
            < end
    }
}

/// Exhaustion is terminal: an exhausted query stays exhausted and only ever says `Done`,
/// whatever the position.
pub proof fn lemma_exhausted_is_terminal(chunks: Seq<(u64, u64)>, position: u64)
    ensures
        transition(QueryState::Exhausted, chunks, position) == (
            QueryState::Exhausted,
            StepView::Done,
        ),
{
}

// ---------------------------------------------------------------------------------------------
// Running a query over decoded records

/// A decoded record as a query sees it: where it starts in the stream, its reference
/// sequence, and its interval `[start, end)`.
#[derive(Clone, Copy, Debug, PartialEq, Eq, Structural)]
pub struct LocatedRecord {
    pub offset: VirtualOffset,
    pub reference_sequence_id: usize,
    pub start: u64,
    pub end: u64,
}

/// The records stand in strictly increasing order of offset, as in a stream.
pub open spec fn offsets_increasing(rs: Seq<LocatedRecord>) -> bool {
    forall|i: int, j: int| 0 <= i < j < rs.len() ==> #[trigger] rs[i].offset@ < #[trigger] rs[j].offset@
}

/// Whether the query `q` keeps the record `r` when it reads it.
pub open spec fn keeps(q: QueryView, r: LocatedRecord) -> bool {
    record_matches(q.reference_sequence_id, q.start, q.end, r.reference_sequence_id, r.start, r.end)
}

/// The indices in `out` strictly increase.
pub open spec fn strictly_increasing(out: Seq<usize>) -> bool {
    forall|i: int, j: int| 0 <= i < j < out.len() ==> #[trigger] out[i] < #[trigger] out[j]
}

/// The index of the first record at or after offset `o`.
fn first_at_or_after(records: &Vec<LocatedRecord>, o: VirtualOffset) -> (k: usize)
    ensures
        k <= records@.len(),
        forall|j: int| 0 <= j < k ==> #[trigger] records@[j].offset@ < o@,
        k < records@.len() ==> o@ <= records@[k as int].offset@,
{
    let mut k: usize = 0;
    while k < records.len() && records[k].offset.is_before(&o)
        invariant
            k <= records@.len(),
            forall|j: int| 0 <= j < k ==> #[trigger] records@[j].offset@ < o@,
        decreases records@.len() - k,
    {
        k = k + 1;
    }
    k
}

/// How far a query in `state` over `n` chunks is from the end.
pub open spec fn remaining(state: QueryState, n: int) -> int {
    match state {
        QueryState::AtQueryStart => n + 1,
        QueryState::InChunk(i) => n - i,
        QueryState::Exhausted => 0,
    }
}

impl Query {
    /// Runs a fresh query over the records of a stream, held decoded in memory in stream
    /// order, and returns the indices of the records it yields, in order: those that lie in one
    /// of its chunks and that it keeps. Each is yielded once.
#[verifier::rlimit(40)]
    pub fn select(&mut self, records: &Vec<LocatedRecord>) -> (r: Vec<usize>)
        requires
            old(self)@.state == QueryState::AtQueryStart,
            is_normalized(old(self)@.chunks),
            offsets_increasing(records@),
        ensures
            final(self)@.state == QueryState::Exhausted,
            strictly_increasing(r@),
            forall|j: usize|
                r@.contains(j) <==> j < records@.len() && keeps(old(self)@, records@[j as int])
                    && covers(old(self)@.chunks, records@[j as int].offset@ as int),
    {
        let ghost q = self@;
        let ghost c = q.chunks;
        let ghost n = records@.len();
        let mut out: Vec<usize> = Vec::new();
        let mut k: usize = 0;
        let chunk_count = self.chunks.len();
        assert(c.len() == chunk_count);
        loop
            invariant
                c.len() <= usize::MAX,
                self@.chunks == c,
                self@.reference_sequence_id == q.reference_sequence_id,
                self@.start == q.start,
                self@.end == q.end,
                is_normalized(c),
                offsets_increasing(records@),
                n == records@.len(),
                k <= n,
                strictly_increasing(out@),
                self@.state == QueryState::AtQueryStart ==> out@.len() == 0,
                self@.state matches QueryState::InChunk(i) ==> {
                    &&& i < c.len()
                    &&& k < n ==> c[i as int].0 <= records@[k as int].offset@
                    &&& forall|j: int|
                        0 <= j < k ==> c[i as int].0 <= #[trigger] records@[j].offset@ ==> records@[j].offset@
                            < c[i as int].1
                    &&& forall|x: int| 0 <= x < out@.len() ==> #[trigger] out@[x] < k
                    &&& forall|j: usize|
                        #[trigger] out@.contains(j) <==> j < n && keeps(q, records@[j as int]) && (
                        covers(c.subrange(0, i as int), records@[j as int].offset@ as int) || (j
                            < k && c[i as int].0 <= records@[j as int].offset@))
                },
                self@.state == QueryState::Exhausted ==> forall|j: usize|
                    #[trigger] out@.contains(j) <==> j < n && keeps(q, records@[j as int]) && covers(
                        c,
                        records@[j as int].offset@ as int,
                    ),
            ensures
                self@.state == QueryState::Exhausted,
                self@.chunks == c,
                strictly_increasing(out@),
                forall|j: usize|
                    #[trigger] out@.contains(j) <==> j < n && keeps(q, records@[j as int]) && covers(
                        c,
                        records@[j as int].offset@ as int,
                    ),
            decreases remaining(self@.state, c.len() as int), n - k,
        {
            let position = if k < records.len() {
                records[k].offset
            } else {
                VirtualOffset::from(0xffff_ffff_ffff_ffffu64)
            };
            let ghost before = self@.state;
            let ghost out0 = out@;
            let ghost k0 = k;
            proof {
                // Leaving chunk `i`: what was read in it is exactly what it covers.
                if let QueryState::InChunk(i) = before {
                    if !(position@ < c[i as int].1) {
                        assert forall|j: usize| j < n implies (covers(
                            c.subrange(0, i + 1),
                            records@[j as int].offset@ as int,
                        ) <==> covers(c.subrange(0, i as int), records@[j as int].offset@ as int)
                            || (j < k && c[i as int].0 <= records@[j as int].offset@)) by {
                            let v = records@[j as int].offset@ as int;
                            assert(c.subrange(0, i + 1) =~= c.subrange(0, i as int) + seq![
                                c[i as int],
                            ]);
                            lemma_covers_concat(c.subrange(0, i as int), seq![c[i as int]], v);
                            lemma_covers_one(c[i as int], v);
                            if c[i as int].0 <= v < c[i as int].1 && k < n {
                                if j >= k {
                                    if j > k {
                                        assert(records@[k as int].offset@ < records@[j as int].offset@);
                                    }
                                }
                            }
                        }
                    }
                }
            }
            let step = self.next_step(position);
            match step {
                Step::Done => {
                    proof {
                        if let QueryState::InChunk(i) = before {
                            assert(i + 1 >= c.len());
                            assert(c.subrange(0, i + 1) =~= c);
                        }
                        if before == QueryState::AtQueryStart {
                            assert forall|j: usize| !covers(c, j as int) by {}
                        }
                    }
                    break;
                },
                Step::Seek(o) => {
                    k = first_at_or_after(records, o);
                    proof {
                        assert(step@ == StepView::Seek(o@));
                        assert(transition(before, c, position@) == (self@.state, step@));
                        let i = match self@.state {
                            QueryState::InChunk(i) => i,
                            _ => 0,
                        };
                        assert(self@.state == QueryState::InChunk(i));
                        if let QueryState::InChunk(p) = before {
                            assert(i == p + 1);
                            assert(o@ == c[i as int].0);
                            assert(c.subrange(0, i as int) == c.subrange(0, p + 1));
                            assert forall|x: int| 0 <= x < out@.len() implies #[trigger] out@[x]
                                < k by {
                                let j = out@[x];
                                assert(out@.contains(j));
                                let v = records@[j as int].offset@ as int;
                                assert(covers(c.subrange(0, i as int), v));
                                let m = choose|m: int|
                                    0 <= m < c.subrange(0, i as int).len()
                                        && #[trigger] c.subrange(0, i as int)[m].0 <= v < c.subrange(
                                        0,
                                        i as int,
                                    )[m].1;
                                assert(c[m].1 < c[i as int].0);
                                if j >= k {
                                    if j > k {
                                        assert(records@[k as int].offset@ < records@[j as int].offset@);
                                    }
                                }
                            }
                        } else {
                            assert(i == 0);
                            assert(o@ == c[i as int].0);
                            assert forall|j: usize| !covers(c.subrange(0, 0), j as int) by {}
                        }
                    }
                },
                Step::Read => {
                    proof {
                        let i = match before {
                            QueryState::InChunk(i) => i,
                            _ => 0,
                        };
                        assert(before == QueryState::InChunk(i));
                        assert(k < n);
                    }
                    let rec = records[k];
                    if self.intersects(rec.reference_sequence_id, rec.start, rec.end) {
                        out.push(k);
                        proof {
                            assert forall|j: usize|
                                #[trigger] out@.contains(j) <==> out0.contains(j) || j == k by {
                                if out@.contains(j) {
                                    let x = choose|x: int| 0 <= x < out@.len() && out@[x] == j;
                                    if x < out0.len() {
                                        assert(out0[x] == j);
                                    }
                                }
                                if out0.contains(j) {
                                    let x = choose|x: int| 0 <= x < out0.len() && out0[x] == j;
                                    assert(out@[x] == j);
                                }
                                if j == k {
                                    assert(out@[out0.len() as int] == j);
                                }
                            }
                        }
                    }
                    k = k + 1;
                },
            }
        }
        out
    }
}

/// Query correctness. Let the chunks of a query be those that the index gives for its
/// reference sequence and interval, and let the index be sound for a stream: each record of the
/// stream that the query keeps starts at an offset inside a chunk of a bin overlapping the
/// interval. Then what `select` yields over the stream is exactly the set of records on the
/// query's reference sequence whose interval overlaps the query's: nothing else passes the
/// filter, and merging chunks loses none.
pub proof fn lemma_query_correct(
    bins: Map<u64, Seq<(u64, u64)>>,
    q: QueryView,
    records: Seq<LocatedRecord>,
    yielded: Seq<usize>,
)
    requires
        forall|v: int|
            covers(q.chunks, v) <==> indexed_covers(bins, q.start as int, q.end as int, v),
        forall|j: int|
            0 <= j < records.len() && keeps(q, #[trigger] records[j]) ==> indexed_covers(
                bins,
                q.start as int,
                q.end as int,
                records[j].offset@ as int,
            ),
        forall|j: usize|
            yielded.contains(j) <==> j < records.len() && keeps(q, records[j as int]) && covers(
                q.chunks,
                records[j as int].offset@ as int,
            ),
    ensures
        forall|j: usize|
            yielded.contains(j) <==> j < records.len() && record_matches(
                q.reference_sequence_id,
                q.start,
                q.end,
                records[j as int].reference_sequence_id,
                records[j as int].start,
                records[j as int].end,
            ),
{
    assert forall|j: usize|
        yielded.contains(j) <==> j < records.len() && keeps(q, records[j as int]) by {
        if j < records.len() && keeps(q, records[j as int]) {
            assert(indexed_covers(bins, q.start as int, q.end as int, records[j as int].offset@ as int));
        }
    }
}

} // verus!
