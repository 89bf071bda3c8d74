//! Virtual offsets into a block-compressed stream, and chunks of them.

use vstd::prelude::*;

verus! {

/// The number of values that the within-block part of a virtual offset can take.
pub const UNCOMPRESSED_SPAN: u64 = 0x1_0000;

/// The largest compressed-block offset that a virtual offset can hold (48 bits).
pub const MAX_COMPRESSED: u64 = 0xffff_ffff_ffff;

/// A position in a block-compressed stream: the offset of a compressed block (high 48 bits)
/// and an offset within its uncompressed data (low 16 bits).
///
/// Its order is the order of the 64-bit value, which is the lexicographic order of the pair.
#[derive(Clone, Copy, Debug, PartialEq, Eq, Structural, PartialOrd, Ord, Hash, Default)]
pub struct VirtualOffset(u64);

impl View for VirtualOffset {
    type V = u64;

    closed spec fn view(&self) -> u64 {
        self.0
    }
}

/// The compressed-block part of a raw virtual offset.
pub open spec fn compressed_of(v: u64) -> int {
    v as int / UNCOMPRESSED_SPAN as int
}

/// The within-block part of a raw virtual offset.
pub open spec fn uncompressed_of(v: u64) -> int {
    v as int % UNCOMPRESSED_SPAN as int
}

/// The raw value of the pair (compressed, uncompressed), the compressed part cut to 48 bits.
pub open spec fn compose(compressed: u64, uncompressed: u16) -> int {
    (compressed as int % (MAX_COMPRESSED as int + 1)) * UNCOMPRESSED_SPAN as int
        + uncompressed as int
}

impl VirtualOffset {
    /// Builds a virtual offset from its two parts. The compressed-block offset is cut to its
    /// low 48 bits, as the wire format has no room for more.
    pub fn new(compressed: u64, uncompressed: u16) -> (r: VirtualOffset)
        ensures
            r@ as int == compose(compressed, uncompressed),
            compressed <= MAX_COMPRESSED ==> compressed_of(r@) == compressed as int,
            uncompressed_of(r@) == uncompressed as int,
    {
        let c = compressed & MAX_COMPRESSED;
        let v = (c << 16u64) | (uncompressed as u64);
        assert(c == compressed % 0x1_0000_0000_0000) by (bit_vector)
            requires
                c == compressed & 0xffff_ffff_ffff,
        ;
        assert(v == c * 0x1_0000 + uncompressed as u64 && c * 0x1_0000 + uncompressed as u64
            <= 0xffff_ffff_ffff_ffff) by (bit_vector)
            requires
                c <= 0xffff_ffff_ffff,
                v == (c << 16u64) | (uncompressed as u64),
        ;
        VirtualOffset(v)
    }

    /// The offset of the compressed block this points into.
    pub fn compressed(&self) -> (r: u64)
        ensures
            r as int == compressed_of(self@),
            r <= MAX_COMPRESSED,
    {
        let v = self.0;
        assert(v >> 16u64 == v / 0x1_0000 && v / 0x1_0000 <= 0xffff_ffff_ffff) by (bit_vector);
        v >> 16u64
    }

    /// The offset within the uncompressed data of the block.
    pub fn uncompressed(&self) -> (r: u16)
        ensures
            r as int == uncompressed_of(self@),
    {
        let v = self.0;
        assert(v & 0xffff == v % 0x1_0000) by (bit_vector);
        (v & 0xffff) as u16
    }

    /// Whether this offset comes strictly before `other`.
    pub fn is_before(&self, other: &VirtualOffset) -> (r: bool)
        ensures
            r == (self@ < other@),
    {
        self.0 < other.0
    }
}

impl From<u64> for VirtualOffset {
    fn from(n: u64) -> (r: VirtualOffset)
        ensures
            r@ == n,
    {
        VirtualOffset(n)
    }
}

impl vstd::std_specs::convert::FromSpecImpl<u64> for VirtualOffset {
    open spec fn obeys_from_spec() -> bool {
        true
    }

    closed spec fn from_spec(n: u64) -> VirtualOffset {
        VirtualOffset(n)
    }
}

impl From<VirtualOffset> for u64 {
    fn from(v: VirtualOffset) -> (r: u64)
        ensures
            r == v@,
    {
        v.0
    }
}

impl vstd::std_specs::convert::FromSpecImpl<VirtualOffset> for u64 {
    open spec fn obeys_from_spec() -> bool {
        true
    }

    closed spec fn from_spec(v: VirtualOffset) -> u64 {
        v.0
    }
}

/// The order of virtual offsets is the lexicographic order of (compressed, uncompressed).
pub proof fn lemma_order_is_lexicographic(a: VirtualOffset, b: VirtualOffset)
    ensures
        (a@ < b@) <==> (compressed_of(a@) < compressed_of(b@) || (compressed_of(a@)
            == compressed_of(b@) && uncompressed_of(a@) < uncompressed_of(b@))),
{
    let x = a@ as int;
    let y = b@ as int;
    vstd::arithmetic::div_mod::lemma_fundamental_div_mod(x, 0x1_0000);
    vstd::arithmetic::div_mod::lemma_fundamental_div_mod(y, 0x1_0000);
}

/// A half-open range `[start, end)` of virtual offsets that may hold records of some bin.
#[derive(Clone, Copy, Debug, PartialEq, Eq, Structural, Hash)]
pub struct Chunk {
    start: VirtualOffset,
    end: VirtualOffset,
}

impl View for Chunk {
    type V = (u64, u64);

    closed spec fn view(&self) -> (u64, u64) {
        (self.start@, self.end@)
    }
}

impl Chunk {
    /// Builds the chunk `[start, end)`.
    pub fn new(start: VirtualOffset, end: VirtualOffset) -> (r: Chunk)
        ensures
            r@ == (start@, end@),
    {
        Chunk { start, end }
    }

    /// The first offset of the chunk.
    pub fn start(&self) -> (r: VirtualOffset)
        ensures
            r@ == self@.0,
    {
        self.start
    }

    /// The offset just past the chunk.
    pub fn end(&self) -> (r: VirtualOffset)
        ensures
            r@ == self@.1,
    {
        self.end
    }
}

} // verus!
