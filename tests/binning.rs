use std::collections::HashMap;

use seqidx::binning::{insert_chunk, reg2bins, BinningIndex, QueryError, ReferenceSequence};
use seqidx::virtual_offset::{Chunk, VirtualOffset};

fn chunk(a: u64, b: u64) -> Chunk {
    Chunk::new(VirtualOffset::from(a), VirtualOffset::from(b))
}

fn raw(chunks: &[Chunk]) -> Vec<(u64, u64)> {
    chunks.iter().map(|c| (u64::from(c.start()), u64::from(c.end()))).collect()
}

#[test]
fn candidate_bins_of_a_small_interval() {
    let mut bins = reg2bins(0, 1);
    bins.sort();
    assert_eq!(bins, vec![0, 1, 9, 73, 585, 4681]);

    let mut bins = reg2bins(0x4000, 0x8001);
    bins.sort();
    assert_eq!(bins, vec![0, 1, 9, 73, 585, 4682, 4683]);
}

#[test]
fn candidate_bins_outside_the_space() {
    assert!(reg2bins(1 << 29, (1 << 29) + 10).is_empty());
    assert!(reg2bins(5, 5).is_empty());
    assert_eq!(reg2bins(0, u64::MAX).len(), 37449);
}

#[test]
fn merges_overlapping_and_adjacent_chunks() {
    let merged = insert_chunk(&Vec::new(), chunk(10, 20));
    let merged = insert_chunk(&merged, chunk(30, 40));
    assert_eq!(raw(&merged), vec![(10, 20), (30, 40)]);
    let merged = insert_chunk(&merged, chunk(20, 25));
    assert_eq!(raw(&merged), vec![(10, 25), (30, 40)]);
    let merged = insert_chunk(&merged, chunk(5, 35));
    assert_eq!(raw(&merged), vec![(5, 40)]);
    let merged = insert_chunk(&merged, chunk(50, 50));
    assert_eq!(raw(&merged), vec![(5, 40)]);
    let merged = insert_chunk(&merged, chunk(1, 2));
    assert_eq!(raw(&merged), vec![(1, 2), (5, 40)]);
}

fn index() -> BinningIndex {
    let mut bins = HashMap::new();
    bins.insert(4681, vec![chunk(100, 200)]);
    bins.insert(4682, vec![chunk(150, 300), chunk(500, 600)]);
    bins.insert(0, vec![chunk(1000, 1100)]);
    BinningIndex::new(vec![
        ReferenceSequence::new(bins),
        ReferenceSequence::new(HashMap::new()),
    ])
}

#[test]
fn query_merges_the_chunks_of_candidate_bins() {
    let index = index();
    assert_eq!(index.reference_sequence_count(), 2);
    let chunks = index.query(0, 0, 0x5000).unwrap();
    assert_eq!(raw(&chunks), vec![(100, 300), (500, 600), (1000, 1100)]);
    let chunks = index.query(0, 0x4000, 0x4001).unwrap();
    assert_eq!(raw(&chunks), vec![(150, 300), (500, 600), (1000, 1100)]);
    let chunks = index.query(0, 0x10_0000, 0x10_0001).unwrap();
    assert_eq!(raw(&chunks), vec![(1000, 1100)]);
}

#[test]
fn query_outside_all_bins_is_empty() {
    let index = index();
    assert_eq!(index.query(0, 1 << 29, (1 << 29) + 100), Ok(Vec::new()));
    assert_eq!(index.query(1, 0, 100), Ok(Vec::new()));
    assert_eq!(index.query(0, 10, 10), Ok(Vec::new()));
}

#[test]
fn query_of_unknown_reference_sequence_fails() {
    let index = index();
    assert_eq!(index.query(2, 0, 100), Err(QueryError::UnknownReferenceSequence(2)));
}

#[test]
fn reference_sequence_bins() {
    let mut bins = HashMap::new();
    bins.insert(7, vec![chunk(1, 2)]);
    let reference_sequence = ReferenceSequence::new(bins);
    assert_eq!(reference_sequence.get(7).map(|cs| raw(cs)), Some(vec![(1, 2)]));
    assert!(reference_sequence.get(8).is_none());
}

#[test]
fn bins_of_a_reference_sequence() {
    let index = index();
    let bins = index.reference_sequence(0).unwrap();
    assert_eq!(bins.get(4682).map(|cs| raw(cs)), Some(vec![(150, 300), (500, 600)]));
    assert!(index.reference_sequence(1).unwrap().get(0).is_none());
    assert!(index.reference_sequence(2).is_none());
}
