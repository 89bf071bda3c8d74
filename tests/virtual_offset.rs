use seqidx::virtual_offset::{Chunk, VirtualOffset};

#[test]
fn orders_within_a_block() {
    let a = VirtualOffset::new(10, 5);
    let b = VirtualOffset::new(10, 20);
    assert!(a.is_before(&b));
    assert!(!b.is_before(&a));
    assert!(a < b);
}

#[test]
fn block_offset_dominates() {
    let a = VirtualOffset::new(5, 999);
    let b = VirtualOffset::new(6, 0);
    assert!(a.is_before(&b));
    assert!(a < b);
}

#[test]
fn composes_and_decomposes() {
    let v = VirtualOffset::new(0x1234, 0x5678);
    assert_eq!(u64::from(v), 0x1234_5678);
    assert_eq!(v.compressed(), 0x1234);
    assert_eq!(v.uncompressed(), 0x5678);
    let w = VirtualOffset::from(0xffff_ffff_ffff_ffff);
    assert_eq!(w.compressed(), 0xffff_ffff_ffff);
    assert_eq!(w.uncompressed(), 0xffff);
    // the compressed offset is cut to 48 bits
    assert_eq!(u64::from(VirtualOffset::new(0x1_0000_0000_0001, 2)), 0x1_0002);
}

#[test]
fn chunk_bounds() {
    let c = Chunk::new(VirtualOffset::from(3), VirtualOffset::from(9));
    assert_eq!(u64::from(c.start()), 3);
    assert_eq!(u64::from(c.end()), 9);
}
