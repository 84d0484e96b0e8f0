//! Tuple identifiers.
//!
//! A posting *is* the Postgres `ctid`: a block number and a line-pointer
//! offset. Everything in the index is addressed by that physical location.

use vstd::prelude::*;

verus! {

/// Highest line-pointer offset on a heap page. Offsets are 1-based, so valid
/// offsets are `1..=MAX_OFFSET`.
pub const MAX_OFFSET: u16 = 291;

/// Heap pages covered by one page-level bitmap (one "group").
pub const PAGES_PER_GROUP: u32 = 256;

/// A Postgres heap tuple identifier (`ctid`).
#[derive(Copy, Clone, Debug, PartialEq, Eq, PartialOrd, Ord, Hash, Structural)]
pub struct Tid {
    pub block: u32,
    pub offset: u16,
}

impl Tid {
    /// A tid whose offset lies on a heap page.
    pub open spec fn valid(self) -> bool {
        1 <= self.offset <= MAX_OFFSET
    }

    /// The group of 256 pages the tuple lives in.
    pub open spec fn spec_group(self) -> int {
        self.block as int / 256
    }

    /// The page within its group.
    pub open spec fn spec_page(self) -> int {
        self.block as int % 256
    }

    /// The bit within the page's offset bitmap.
    pub open spec fn spec_bit(self) -> int {
        self.offset - 1
    }

    /// The order-preserving key: `block * 512 + bit`.
    pub open spec fn spec_key(self) -> int {
        self.block * 512 + self.spec_bit()
    }

    /// Heap order: by block, then by offset.
    pub open spec fn before(self, other: Tid) -> bool {
        self.block < other.block || (self.block == other.block && self.offset < other.offset)
    }

    /// The tid at the given coordinates.
    pub open spec fn at(group: int, page: int, bit: int) -> Tid {
        Tid { block: (group * 256 + page) as u32, offset: (bit + 1) as u16 }
    }

    /// A new tid.
    pub fn new(block: u32, offset: u16) -> (r: Self)
        requires
            1 <= offset <= MAX_OFFSET,
        ensures
            r == (Tid { block, offset }),
            r.valid(),
    {
        Tid { block, offset }
    }

    /// Group (run of 256 heap pages) this tuple lives in.
    pub fn group(self) -> (r: u32)
        ensures
            r == self.spec_group(),
    {
        let b: u32 = self.block;
        assert(b >> 8 == b / 256) by (bit_vector);
        self.block >> 8
    }

    /// Page index within its group, `0..256`.
    pub fn page_in_group(self) -> (r: u8)
        ensures
            r == self.spec_page(),
    {
        let b: u32 = self.block;
        assert((b as u8) == b % 256) by (bit_vector);
        #[verifier::truncate]
        (self.block as u8)
    }

    /// Bit index within the page's offset bitmap, `0..MAX_OFFSET`.
    pub fn offset_bit(self) -> (r: u16)
        requires
            self.offset >= 1,
        ensures
            r == self.spec_bit(),
    {
        self.offset - 1
    }

    /// Rebuild a tid from its group, page and bit coordinates.
    pub fn from_parts(group: u32, page: u8, bit: u16) -> (r: Self)
        requires
            group < 0x100_0000,
            bit < u16::MAX,
        ensures
            r == Tid::at(group as int, page as int, bit as int),
            r.spec_group() == group,
            r.spec_page() == page,
            r.spec_bit() == bit,
    {
        assert(group < 0x100_0000 ==> ((group << 8) | (page as u32)) == group * 256 + page)
            by (bit_vector);
        Tid { block: (group << 8) | page as u32, offset: bit + 1 }
    }

    /// Dense, order-preserving key: `block * 512 + offset_bit`.
    pub fn key(self) -> (r: u64)
        requires
            1 <= self.offset <= 512,
        ensures
            r == self.spec_key(),
    {
        let b: u32 = self.block;
        let o: u16 = self.offset_bit();
        assert(o < 512 ==> (((b as u64) << 9) | (o as u64)) == b * 512 + o) by (bit_vector);
        ((self.block as u64) << 9) | self.offset_bit() as u64
    }

    /// The tid of a key.
    pub fn from_key(key: u64) -> (r: Self)
        requires
            key < 0x200_0000_0000,
        ensures
            r.block == key / 512,
            r.offset == key % 512 + 1,
            r.spec_key() == key,
            1 <= r.offset <= 512,
    {
        assert(key < 0x200_0000_0000 ==> ((key >> 9) as u32) == key / 512 && ((key & 0x1FF) as u16)
            == key % 512 && key % 512 < 512) by (bit_vector);
        Tid { block: #[verifier::truncate] ((key >> 9) as u32), offset: #[verifier::truncate] ((key & 0x1FF) as u16) + 1 }
    }
}

/// Keys keep the heap order, and no two tids share one.
pub proof fn key_preserves_order(a: Tid, b: Tid)
    requires
        a.valid(),
        b.valid(),
    ensures
        a.before(b) <==> a.spec_key() < b.spec_key(),
        a == b <==> a.spec_key() == b.spec_key(),
{
}

/// A tid is recovered from its key, and from its group, page and bit.
pub proof fn tid_from_coordinates(t: Tid)
    requires
        t.valid(),
    ensures
        Tid::at(t.spec_group(), t.spec_page(), t.spec_bit()) == t,
        t.spec_key() / 512 == t.block,
        t.spec_key() % 512 == t.spec_bit(),
{
}

} // verus!
