use seqidx::query::{LocatedRecord, Query, QueryState, Step};
use seqidx::virtual_offset::{Chunk, VirtualOffset};

fn chunk(a: u64, b: u64) -> Chunk {
    Chunk::new(VirtualOffset::from(a), VirtualOffset::from(b))
}

fn rec(offset: u64, rid: usize, start: u64, end: u64) -> LocatedRecord {
    LocatedRecord { offset: VirtualOffset::from(offset), reference_sequence_id: rid, start, end }
}

#[test]
fn walks_its_chunks() {
    let mut q = Query::new(vec![chunk(10, 20), chunk(40, 50)], 0, 0, 100);
    assert_eq!(q.state(), QueryState::AtQueryStart);
    assert_eq!(q.next_step(VirtualOffset::from(0)), Step::Seek(VirtualOffset::from(10)));
    assert_eq!(q.state(), QueryState::InChunk(0));
    assert_eq!(q.next_step(VirtualOffset::from(10)), Step::Read);
    assert_eq!(q.next_step(VirtualOffset::from(19)), Step::Read);
    assert_eq!(q.next_step(VirtualOffset::from(20)), Step::Seek(VirtualOffset::from(40)));
    assert_eq!(q.state(), QueryState::InChunk(1));
    assert_eq!(q.next_step(VirtualOffset::from(45)), Step::Read);
    assert_eq!(q.next_step(VirtualOffset::from(60)), Step::Done);
    assert_eq!(q.state(), QueryState::Exhausted);
}

#[test]
fn exhausted_query_stays_done() {
    let mut q = Query::new(Vec::new(), 0, 0, 100);
    assert_eq!(q.next_step(VirtualOffset::from(0)), Step::Done);
    for position in [0, 5, u64::MAX] {
        assert_eq!(q.next_step(VirtualOffset::from(position)), Step::Done);
        assert_eq!(q.state(), QueryState::Exhausted);
    }

    let mut q = Query::new(vec![chunk(1, 2)], 0, 0, 100);
    q.finish();
    assert_eq!(q.next_step(VirtualOffset::from(1)), Step::Done);
    assert_eq!(q.state(), QueryState::Exhausted);
}

#[test]
fn keeps_only_overlapping_records_of_its_reference_sequence() {
    let q = Query::new(Vec::new(), 1, 100, 200);
    assert!(q.intersects(1, 150, 160));
    assert!(q.intersects(1, 50, 101));
    assert!(q.intersects(1, 199, 300));
    assert!(!q.intersects(1, 200, 300));
    assert!(!q.intersects(1, 50, 100));
    assert!(!q.intersects(0, 150, 160));
}

#[test]
fn selects_exactly_the_matching_records_in_its_chunks() {
    let records = vec![
        rec(5, 0, 10, 20),   // before any chunk
        rec(10, 0, 10, 20),  // in chunk 0, overlaps
        rec(12, 1, 10, 20),  // in chunk 0, other reference sequence
        rec(15, 0, 500, 600), // in chunk 0, no overlap
        rec(25, 0, 10, 20),  // between chunks
        rec(40, 0, 90, 110), // in chunk 1, overlaps
        rec(49, 0, 0, 1000), // in chunk 1, overlaps
        rec(50, 0, 10, 20),  // at the end of chunk 1
    ];
    let mut q = Query::new(vec![chunk(10, 20), chunk(40, 50)], 0, 0, 100);
    assert_eq!(q.select(&records), vec![1, 5, 6]);
    assert_eq!(q.state(), QueryState::Exhausted);
}

#[test]
fn select_without_chunks_yields_nothing() {
    let records = vec![rec(5, 0, 10, 20)];
    let mut q = Query::new(Vec::new(), 0, 0, 100);
    assert!(q.select(&records).is_empty());
}
