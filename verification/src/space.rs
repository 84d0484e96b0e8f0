//! Tuple space: the line pointers of a segment's heap pages, packed back to
//! back.
//!
//! A [`PageDir`] says how many line pointers each page has; a [`GroupSpace`]
//! is the resulting layout of one group of 256 pages, and a [`SpaceTable`]
//! holds the layouts of every group that a segment covers.

use vstd::prelude::*;
use crate::bitmap::PageBits;
use crate::tid::Tid;
use crate::words;
use crate::words::bit;

verus! {

/// What a page directory says: the widths of the pages from `first` on.
pub ghost struct Widths {
    pub first: int,
    pub widths: Seq<u16>,
}

/// The group of a block.
pub open spec fn group_of_block(b: int) -> int {
    b / 256
}

/// The sum of the first `n` widths.
pub open spec fn total(w: Seq<u16>, n: int) -> int
    decreases n,
{
    if n <= 0 {
        0
    } else {
        total(w, n - 1) + w[n - 1]
    }
}

impl Widths {
    /// Every block number fits a `u32`.
    pub open spec fn valid(self) -> bool {
        &&& 0 <= self.first
        &&& self.first + self.widths.len() <= u32::MAX + 1
    }

    /// Line pointers on a page; 0 outside the directory.
    pub open spec fn width(self, block: int) -> int {
        if self.first <= block < self.first + self.widths.len() {
            self.widths[block - self.first] as int
        } else {
            0
        }
    }

    /// Line pointers on all pages before `block`.
    pub open spec fn below(self, block: int) -> int {
        if block <= self.first {
            0
        } else if block - self.first <= self.widths.len() {
            total(self.widths, block - self.first)
        } else {
            total(self.widths, self.widths.len() as int)
        }
    }

    /// Where page `p` of group `g` starts in the group's tuple space.
    pub open spec fn start(self, g: int, p: int) -> int {
        self.below(g * 256 + p) - self.below(g * 256)
    }

    /// Line pointers of the whole group.
    pub open spec fn bits(self, g: int) -> int {
        self.start(g, 256)
    }

    /// Whether bit `x` of group `g`'s tuple space belongs to page `p`.
    pub open spec fn on_page(self, g: int, p: int, x: int) -> bool {
        0 <= p < 256 && self.start(g, p) <= x < self.start(g, p + 1)
    }

    /// The page that bit `x` of group `g`'s tuple space belongs to.
    pub open spec fn page_at(self, g: int, x: int) -> int {
        choose|p: int| self.on_page(g, p, x)
    }

    /// The tuple that bit `x` of group `g`'s tuple space stands for.
    pub open spec fn tid_at(self, g: int, x: int) -> Tid {
        Tid::at(g, self.page_at(g, x), x - self.start(g, self.page_at(g, x)))
    }

    /// A tid on a line pointer that the directory knows.
    pub open spec fn holds(self, t: Tid) -> bool {
        1 <= t.offset <= self.width(t.block as int)
    }

    /// Some block of the directory is in group `g`.
    pub open spec fn reaches(self, g: int) -> bool {
        exists|b: int| self.first <= b < self.first + self.widths.len() && #[trigger] group_of_block(b) == g
    }

    /// Where a tuple's bit stands in its group's tuple space.
    pub open spec fn slot(self, t: Tid) -> int {
        self.start(t.spec_group(), t.spec_page()) + t.spec_bit()
    }

    /// Where a tuple's bit stands in the segment-wide tuple space.
    pub open spec fn tid_bit(self, t: Tid) -> int {
        self.below(t.block as int) + t.spec_bit()
    }
}

pub proof fn lemma_below_step(d: Widths, b: int)
    ensures
        d.below(b + 1) == d.below(b) + d.width(b),
        0 <= d.width(b) <= 0xFFFF,
{
}

pub proof fn lemma_below_mono(d: Widths, a: int, b: int)
    requires
        a <= b,
    ensures
        d.below(a) <= d.below(b) <= d.below(a) + (b - a) * 0xFFFF,
    decreases b - a,
{
    if a < b {
        lemma_below_mono(d, a, b - 1);
        lemma_below_step(d, b - 1);
    }
}

pub proof fn lemma_below_nonneg(d: Widths, b: int)
    ensures
        0 <= d.below(b),
{
    if b > d.first {
        lemma_below_mono(d, d.first, b);
    }
}

/// Page starts ascend from 0, and a group's tuple space stays below 2^24.
pub proof fn lemma_start_mono(d: Widths, g: int, p: int, q: int)
    requires
        0 <= p <= q <= 256,
    ensures
        d.start(g, 0) == 0,
        0 <= d.start(g, p) <= d.start(g, q) <= d.bits(g) <= 0xFFFF00,
{
    lemma_below_mono(d, g * 256, g * 256 + p);
    lemma_below_mono(d, g * 256 + p, g * 256 + q);
    lemma_below_mono(d, g * 256 + q, g * 256 + 256);
    lemma_below_mono(d, g * 256, g * 256 + 256);
}

/// A page is as wide as its line pointers are many.
pub proof fn lemma_start_step(d: Widths, g: int, p: int)
    ensures
        d.start(g, p) + d.width(g * 256 + p) == d.start(g, p + 1),
        0 <= d.width(g * 256 + p) <= 0xFFFF,
{
    lemma_below_step(d, g * 256 + p);
}

/// A bit on a page belongs to that page only.
pub proof fn lemma_on_page(d: Widths, g: int, p: int, x: int)
    requires
        d.on_page(g, p, x),
    ensures
        d.page_at(g, x) == p,
{
    let q = d.page_at(g, x);
    assert(d.on_page(g, q, x));
    if q < p {
        lemma_start_mono(d, g, q + 1, p);
    }
    if p < q {
        lemma_start_mono(d, g, p + 1, q);
    }
}

/// Every bit of a group's tuple space belongs to a page.
pub proof fn lemma_page_at(d: Widths, g: int, x: int)
    requires
        0 <= x < d.bits(g),
    ensures
        d.on_page(g, d.page_at(g, x), x),
{
    lemma_find_page(d, g, x, 256);
}

proof fn lemma_find_page(d: Widths, g: int, x: int, n: int)
    requires
        0 <= x < d.start(g, n),
        0 <= n <= 256,
    ensures
        exists|p: int| d.on_page(g, p, x),
    decreases n,
{
    lemma_start_mono(d, g, 0, 0);
    if x >= d.start(g, n - 1) {
        assert(d.on_page(g, n - 1, x));
    } else {
        lemma_find_page(d, g, x, n - 1);
    }
}

/// A tuple and its bit in the group's tuple space name each other.
pub proof fn lemma_slot(d: Widths, t: Tid)
    requires
        d.holds(t),
    ensures
        0 <= d.slot(t) < d.bits(t.spec_group()),
        d.on_page(t.spec_group(), t.spec_page(), d.slot(t)),
        d.page_at(t.spec_group(), d.slot(t)) == t.spec_page(),
        d.tid_at(t.spec_group(), d.slot(t)) == t,
{
    let g = t.spec_group();
    let p = t.spec_page();
    assert(g * 256 + p == t.block);
    lemma_start_step(d, g, p);
    lemma_start_mono(d, g, p + 1, 256);
    lemma_start_mono(d, g, 0, p);
    lemma_on_page(d, g, p, d.slot(t));
}

/// The tuple at a bit of a group's tuple space lies in the group, on that bit.
pub proof fn lemma_tid_at(d: Widths, g: int, x: int)
    requires
        d.valid(),
        0 <= g < 0x100_0000,
        0 <= x < d.bits(g),
    ensures
        d.holds(d.tid_at(g, x)),
        d.tid_at(g, x).spec_group() == g,
        d.tid_at(g, x).spec_page() == d.page_at(g, x),
        d.slot(d.tid_at(g, x)) == x,
{
    lemma_page_at(d, g, x);
    let p = d.page_at(g, x);
    lemma_start_step(d, g, p);
    lemma_at(g, p, x - d.start(g, p));
}

pub proof fn lemma_at(g: int, p: int, b: int)
    requires
        0 <= g < 0x100_0000,
        0 <= p < 256,
        0 <= b < 0xFFFF,
    ensures
        Tid::at(g, p, b).block == g * 256 + p,
        Tid::at(g, p, b).offset == b + 1,
        Tid::at(g, p, b).spec_group() == g,
        Tid::at(g, p, b).spec_page() == p,
        Tid::at(g, p, b).spec_bit() == b,
{
}

/// A segment's page directory: the line-pointer count (highest offset in
/// use) of every heap page from `first_block` on. It sets the width of every
/// offset bitmap on that page, for every term.
#[derive(Copy, Clone, Debug)]
pub struct PageDir<'a> {
    first_block: u32,
    widths: &'a [u16],
}

impl<'a> View for PageDir<'a> {
    type V = Widths;

    closed spec fn view(&self) -> Widths {
        Widths { first: self.first_block as int, widths: self.widths@ }
    }
}

impl<'a> PageDir<'a> {
    pub fn new(first_block: u32, widths: &'a [u16]) -> (r: Self)
        ensures
            r@ == (Widths { first: first_block as int, widths: widths@ }),
    {
        PageDir { first_block, widths }
    }

    /// Blocks the directory covers.
    pub fn blocks(&self) -> (r: std::ops::Range<u32>)
        requires
            self@.first + self@.widths.len() <= u32::MAX,
        ensures
            r.start == self@.first,
            r.end == self@.first + self@.widths.len(),
    {
        self.first_block..self.first_block + self.widths.len() as u32
    }

    /// Offset-bitmap width, in bits, for `block` (0 outside the directory).
    pub fn width(&self, block: u32) -> (r: usize)
        ensures
            r == self@.width(block as int),
    {
        if block < self.first_block {
            return 0;
        }
        let i: usize = (block - self.first_block) as usize;
        if i < self.widths.len() {
            self.widths[i] as usize
        } else {
            0
        }
    }
}

/// Layout of one group's tuple space: page `p` owns bits
/// `start(p) .. start(p + 1)`, one per line pointer.
#[derive(Copy, Clone)]
pub struct GroupSpace<'a> {
    /// Cumulative widths.
    start: &'a [u32],
    /// Bit position of this group's first tuple in the segment-wide tuple
    /// space (where liveness bitmaps live).
    base: u64,
    dir: Ghost<Widths>,
    group: Ghost<int>,
}

impl<'a> GroupSpace<'a> {
    /// The directory that the layout follows.
    pub closed spec fn dir(self) -> Widths {
        self.dir@
    }

    /// The group that is laid out.
    pub closed spec fn group(self) -> int {
        self.group@
    }

    /// Where the group starts in the segment-wide tuple space.
    pub closed spec fn spec_base(self) -> u64 {
        self.base
    }

    /// The cumulative widths are those of the directory.
    pub closed spec fn wf(self) -> bool {
        &&& self.start@.len() == 257
        &&& forall|p: int| 0 <= p <= 256 ==> #[trigger] self.start@[p] == self.dir().start(self.group(), p)
    }

    /// First bit of `page` (256 and above: the end of the group).
    pub fn start(&self, page: usize) -> (r: usize)
        requires
            self.wf(),
        ensures
            r == self.dir().start(self.group(), if page < 256 { page as int } else { 256 }),
            r <= self.dir().bits(self.group()) <= 0xFFFF00,
    {
        let p: usize = if page < 256 { page } else { 256 };
        proof {
            lemma_start_mono(self.dir(), self.group(), p as int, 256);
        }
        self.start[p] as usize
    }

    /// Line pointers in the group.
    pub fn bits(&self) -> (r: usize)
        requires
            self.wf(),
        ensures
            r == self.dir().bits(self.group()),
            r <= 0xFFFF00,
    {
        self.start(256)
    }

    /// Segment-wide bit position of this group's first tuple.
    pub fn base(&self) -> (r: u64)
        ensures
            r == self.spec_base(),
    {
        self.base
    }

    /// Words that a bitmap over the group's tuple space takes.
    pub open spec fn spec_words(self) -> int {
        (self.dir().bits(self.group()) + 63) / 64
    }

    pub fn words(&self) -> (r: usize)
        requires
            self.wf(),
        ensures
            r == self.spec_words(),
            self.dir().bits(self.group()) <= r * 64,
    {
        (self.bits() + 63) / 64
    }

    /// Word range `lo..hi` covering every tuple of the pages in `mask`.
    pub fn word_range(&self, mask: &PageBits) -> (r: (usize, usize))
        requires
            self.wf(),
        ensures
            (forall|p: int| !#[trigger] mask.has(p)) ==> r == (0usize, 0usize),
            forall|a: int, b: int| is_first(mask, a) && is_last(mask, b) ==> {
                &&& r.0 == #[trigger] self.dir().start(self.group(), a) / 64
                &&& r.1 == (#[trigger] self.dir().start(self.group(), b + 1) + 63) / 64
            },
            r.0 <= r.1 <= self.spec_words(),
            forall|x: int| 0 <= x < self.dir().bits(self.group()) && #[trigger] mask.has(self.dir().page_at(self.group(), x))
                ==> r.0 * 64 <= x < r.1 * 64,
    {
        proof {
            lemma_start_mono(self.dir(), self.group(), 0, 0);
        }
        match (mask.first(), mask.last()) {
            (Some(a), Some(b)) => {
                let lo: usize = self.start(a) / 64;
                let hi: usize = (self.start(b + 1) + 63) / 64;
                proof {
                    let (d, g) = (self.dir(), self.group());
                    assert(a <= b) by {
                        if b < a {
                            assert(!mask.has(b as int));
                        }
                    }
                    lemma_start_mono(d, g, a as int, b as int + 1);
                    lemma_start_mono(d, g, b as int + 1, 256);
                    assert forall|x: int| 0 <= x < d.bits(g) && #[trigger] mask.has(d.page_at(g, x)) implies lo * 64 <= x < hi * 64 by {
                        lemma_page_at(d, g, x);
                        let p = d.page_at(g, x);
                        lemma_start_mono(d, g, a as int, p);
                        lemma_start_mono(d, g, p + 1, b as int + 1);
                    }
                    assert forall|a2: int, b2: int| is_first(mask, a2) && is_last(mask, b2) implies {
                        &&& lo == #[trigger] d.start(g, a2) / 64
                        &&& hi == (#[trigger] d.start(g, b2 + 1) + 63) / 64
                    } by {
                        assert(a2 == a && b2 == b);
                    }
                }
                (lo, hi)
            },
            _ => (0, 0),
        }
    }

    /// The `(page, offset_bit)` of every set bit of `bits` on a page in
    /// `pages`, ascending.
    pub fn for_each_tuple(&self, bits: &[u64], pages: &PageBits) -> (r: Vec<(u8, u16)>)
        requires
            self.wf(),
            self.spec_words() <= bits@.len(),
            bits@.len() * 64 <= usize::MAX,
        ensures
            tuples_ascend(r@),
            forall|p: u8, b: u16| #[trigger] r@.contains((p, b)) <==> {
                &&& pages.has(p as int)
                &&& b < self.dir().width(self.group() * 256 + p)
                &&& bit(bits@, self.dir().start(self.group(), p as int) + b)
            },
    {
        let ghost (d, g) = (self.dir(), self.group());
        let mut out: Vec<(u8, u16)> = Vec::new();
        let mut p: usize = 0;
        while p < 256
            invariant
                p <= 256,
                self.wf(),
                d == self.dir(),
                g == self.group(),
                self.spec_words() <= bits@.len(),
                bits@.len() * 64 <= usize::MAX,
                tuples_ascend(out@),
                forall|i: int| 0 <= i < out@.len() ==> (#[trigger] out@[i]).0 < p,
                forall|q: u8, b: u16| #[trigger] out@.contains((q, b)) <==> {
                    &&& q < p
                    &&& pages.has(q as int)
                    &&& b < d.width(g * 256 + q)
                    &&& bit(bits@, d.start(g, q as int) + b)
                },
            decreases 256 - p,
        {
            if pages.get(p) {
                let lo: usize = self.start(p);
                let hi: usize = self.start(p + 1);
                proof {
                    lemma_start_step(d, g, p as int);
                    lemma_start_mono(d, g, p as int, p as int + 1);
                }
                let mut at: usize = words::next_one(bits, lo);
                while at < hi
                    invariant
                        p < 256,
                        lo == d.start(g, p as int),
                        hi == d.start(g, p as int + 1),
                        hi == lo + d.width(g * 256 + p),
                        hi - lo <= 0xFFFF,
                        hi <= bits@.len() * 64 <= usize::MAX,
                        lo <= at <= bits@.len() * 64,
                        at < bits@.len() * 64 ==> bit(bits@, at as int),
                        pages.has(p as int),
                        tuples_ascend(out@),
                        forall|i: int| 0 <= i < out@.len() ==> (#[trigger] out@[i]).0 < p || (out@[i].0 == p && out@[i].1 + lo < at),
                        forall|q: u8, b: u16| #[trigger] out@.contains((q, b)) <==> {
                            &&& q < p || (q == p && lo + b < at)
                            &&& pages.has(q as int)
                            &&& b < d.width(g * 256 + q)
                            &&& bit(bits@, d.start(g, q as int) + b)
                        },
                    decreases bits@.len() * 64 - at,
                {
                    let ghost was = out@;
                    let entry: (u8, u16) = (p as u8, (at - lo) as u16);
                    out.push(entry);
                    let next: usize = words::next_one(bits, at + 1);
                    proof {
                        assert forall|q: u8, b: u16| #[trigger] out@.contains((q, b)) <==> {
                            &&& q < p || (q == p && lo + b < next)
                            &&& pages.has(q as int)
                            &&& b < d.width(g * 256 + q)
                            &&& bit(bits@, d.start(g, q as int) + b)
                        } by {
                            lemma_push_contains(was, entry, (q, b));
                            if q == p && at < lo + b < next {
                                assert(!bit(bits@, lo + b));
                            }
                        }
                    }
                    at = next;
                }
                proof {
                    assert forall|q: u8, b: u16| #[trigger] out@.contains((q, b)) <==> {
                        &&& q < p + 1
                        &&& pages.has(q as int)
                        &&& b < d.width(g * 256 + q)
                        &&& bit(bits@, d.start(g, q as int) + b)
                    } by {
                    }
                }
            }
            p = p + 1;
        }
        out
    }
}

/// Tuple-space layouts for every group a segment covers, precomputed from
/// its page directory (4 bytes per heap page; derived, not stored on disk).
pub struct SpaceTable {
    first_group: u32,
    starts: Vec<u32>,
    /// Segment-wide bit position of each group's first tuple.
    bases: Vec<u64>,
    /// The layout of a group without pages.
    empty: Vec<u32>,
    dir: Ghost<Widths>,
}

impl SpaceTable {
    /// The directory that the layouts follow.
    pub closed spec fn dir(self) -> Widths {
        self.dir@
    }

    /// The first group that is laid out.
    pub closed spec fn spec_first(self) -> int {
        self.first_group as int
    }

    /// How many groups are laid out.
    pub closed spec fn groups(self) -> int {
        self.bases@.len() as int
    }

    /// The group is one of those that the directory reaches.
    pub open spec fn covers(self, g: int) -> bool {
        self.spec_first() <= g < self.spec_first() + self.groups()
    }

    /// The groups are those of the directory's blocks, laid out by its widths.
    pub closed spec fn wf(self) -> bool {
        let d = self.dir();
        &&& d.valid()
        &&& self.groups() == 0 <==> d.widths.len() == 0
        &&& self.groups() > 0 ==> {
            &&& self.spec_first() == d.first / 256
            &&& self.spec_first() + self.groups() - 1 == (d.first + d.widths.len() - 1) / 256
        }
        &&& self.starts@.len() == self.groups() * 257
        &&& forall|i: int, p: int| 0 <= i < self.groups() && 0 <= p <= 256
            ==> self.starts@[i * 257 + p] == #[trigger] d.start(self.first_group + i, p)
        &&& forall|i: int| 0 <= i < self.groups() ==> #[trigger] self.bases@[i] == d.below((self.first_group + i) * 256)
        &&& self.empty@.len() == 257
        &&& forall|p: int| 0 <= p <= 256 ==> self.empty@[p] == 0
    }

    pub fn new(dir: PageDir<'_>) -> (r: Self)
        requires
            dir@.valid(),
        ensures
            r.wf(),
            r.dir() == dir@,
            forall|g: int| #[trigger] r.covers(g) <==> dir@.reaches(g),
    {
        let ghost d = dir@;
        let mut empty: Vec<u32> = Vec::new();
        while empty.len() < 257
            invariant
                empty@.len() <= 257,
                forall|p: int| 0 <= p < empty@.len() ==> empty@[p] == 0,
            decreases 257 - empty@.len(),
        {
            empty.push(0);
        }
        let pages: usize = dir.widths.len();
        if pages == 0 {
            let t: SpaceTable = SpaceTable { first_group: 0, starts: Vec::new(), bases: Vec::new(), empty, dir: Ghost(d) };
            proof {
                spaces_follow_directory(t);
            }
            return t;
        }
        let first_group: u32 = dir.first_block / 256;
        let last_group: u32 = (dir.first_block + (pages - 1) as u32) / 256;
        let n: usize = (last_group - first_group + 1) as usize;
        let mut starts: Vec<u32> = Vec::new();
        let mut bases: Vec<u64> = Vec::new();
        let mut sum: u64 = 0;
        let mut i: usize = 0;
        proof {
            assert(d.below(first_group as int * 256) == 0);
        }
        while i < n
            invariant
                d == dir@,
                d.valid(),
                i <= n,
                first_group + n - 1 == last_group,
                last_group < 0x100_0000,
                starts@.len() == i * 257,
                bases@.len() == i,
                sum == d.below((first_group + i) * 256),
                forall|k: int, p: int| 0 <= k < i && 0 <= p <= 256 ==> starts@[k * 257 + p] == #[trigger] d.start(first_group + k, p),
                forall|k: int| 0 <= k < i ==> #[trigger] bases@[k] == d.below((first_group + k) * 256),
            decreases n - i,
        {
            bases.push(sum);
            let g: u32 = first_group + i as u32;
            let mut acc: u32 = 0;
            starts.push(0);
            let mut p: u32 = 0;
            proof {
                lemma_start_mono(d, g as int, 0, 0);
            }
            while p < 256
                invariant
                    d == dir@,
                    p <= 256,
                    g < 0x100_0000,
                    g == first_group + i,
                    starts@.len() == i * 257 + p + 1,
                    acc == d.start(g as int, p as int),
                    acc <= p * 0xFFFF,
                    starts@[i * 257 + p] == acc,
                    forall|k: int, q: int| 0 <= k < i && 0 <= q <= 256 ==> starts@[k * 257 + q] == #[trigger] d.start(first_group + k, q),
                    forall|q: int| 0 <= q <= p ==> starts@[i * 257 + q] == #[trigger] d.start(g as int, q),
                decreases 256 - p,
            {
                proof {
                    lemma_start_step(d, g as int, p as int);
                }
                acc = acc + dir.width(g * 256 + p) as u32;
                starts.push(acc);
                p = p + 1;
            }
            proof {
                lemma_below_mono(d, 0, g * 256 + 256);
                lemma_below_nonneg(d, 0);
                assert(d.below(g * 256 + 256) == sum + acc);
                assert(d.below(0) == 0);
                assert((first_group + (i + 1)) * 256 == g * 256 + 256);
            }
            sum = sum + acc as u64;
            i = i + 1;
        }
        let t: SpaceTable = SpaceTable { first_group, starts, bases, empty, dir: Ghost(d) };
        proof {
            spaces_follow_directory(t);
        }
        t
    }

    /// The layout of group `g`.
    pub fn group(&self, g: u32) -> (r: GroupSpace<'_>)
        requires
            self.wf(),
        ensures
            r.wf(),
            r.dir() == self.dir(),
            r.group() == g,
            r.spec_base() == if self.covers(g as int) { self.dir().below(g * 256) } else { 0 },
            self.covers(g as int) <==> self.dir().reaches(g as int),
            !self.covers(g as int) ==> forall|p: int| 0 <= p <= 256 ==> #[trigger] self.dir().start(g as int, p) == 0,
    {
        proof {
            spaces_follow_directory(*self);
        }
        if g < self.first_group || (g - self.first_group) as usize >= self.bases.len() {
            proof {
                lemma_uncovered(*self, g as int);
            }
            return GroupSpace { start: self.empty.as_slice(), base: 0, dir: Ghost(self.dir()), group: Ghost(g as int) };
        }
        let i: usize = (g - self.first_group) as usize;
        let n: usize = self.starts.len();
        assert(i * 257 + 257 <= n);
        let start: &[u32] = vstd::slice::slice_subrange(self.starts.as_slice(), i * 257, i * 257 + 257);
        proof {
            assert forall|p: int| 0 <= p <= 256 implies #[trigger] start@[p] == self.dir().start(g as int, p) by {
                assert(self.starts@[i * 257 + p] == self.dir().start(self.first_group + i, p));
            }
        }
        GroupSpace { start, base: self.bases[i], dir: Ghost(self.dir()), group: Ghost(g as int) }
    }

    /// Memory that the table takes.
    pub fn bytes(&self) -> (r: usize)
        requires
            self.wf(),
            self.groups() * 1036 <= usize::MAX,
        ensures
            r == self.groups() * 257 * 4 + self.groups() * 8,
    {
        self.starts.len() * 4 + self.bases.len() * 8
    }

    /// The group whose tuple-space range holds segment-wide bit `bit`: the
    /// last one that starts at or before it.
    pub fn group_of_bit(&self, bit: u64) -> (r: Option<u32>)
        requires
            self.wf(),
        ensures
            match r {
                Some(g) => {
                    &&& self.covers(g as int)
                    &&& self.dir().below(g * 256) <= bit
                    &&& self.covers(g + 1) ==> bit < self.dir().below((g + 1) * 256)
                },
                None => self.groups() == 0,
            },
    {
        let mut lo: usize = 0;
        let mut hi: usize = self.bases.len();
        while lo < hi
            invariant
                self.wf(),
                lo <= hi <= self.bases@.len(),
                forall|i: int| 0 <= i < lo ==> #[trigger] self.bases@[i] <= bit,
                forall|i: int| hi <= i < self.bases@.len() ==> #[trigger] self.bases@[i] > bit,
            decreases hi - lo,
        {
            let mid: usize = lo + (hi - lo) / 2;
            if self.bases[mid] <= bit {
                proof {
                    assert forall|i: int| 0 <= i < mid + 1 implies #[trigger] self.bases@[i] <= bit by {
                        lemma_below_mono(self.dir(), (self.first_group + i) * 256, (self.first_group + mid) * 256);
                    }
                }
                lo = mid + 1;
            } else {
                proof {
                    assert forall|i: int| mid <= i < self.bases@.len() implies #[trigger] self.bases@[i] > bit by {
                        lemma_below_mono(self.dir(), (self.first_group + mid) * 256, (self.first_group + i) * 256);
                    }
                }
                hi = mid;
            }
        }
        if lo > 0 {
            let g: u32 = self.first_group + (lo - 1) as u32;
            proof {
                assert(self.bases@[lo - 1] <= bit);
                if self.covers(g + 1) {
                    assert(self.bases@[lo as int] > bit);
                    assert((self.first_group + lo) * 256 == (g + 1) * 256);
                }
            }
            Some(g)
        } else {
            proof {
                if self.groups() > 0 {
                    assert(self.bases@[0] == self.dir().below((self.first_group + 0) * 256));
                    assert(self.first_group * 256 <= self.dir().first);
                }
            }
            None
        }
    }

    /// Segment-wide bit where group `g` starts (0 before the first group).
    pub fn base_of(&self, g: u32) -> (r: u64)
        requires
            self.wf(),
        ensures
            g < self.spec_first() ==> r == 0,
            self.covers(g as int) ==> r == self.dir().below(g * 256),
            g >= self.spec_first() + self.groups() ==> r == u64::MAX,
    {
        if g < self.first_group {
            return 0;
        }
        let i: usize = (g - self.first_group) as usize;
        if i < self.bases.len() {
            proof {
                assert(self.bases@[i as int] == self.dir().below((self.first_group + i) * 256));
            }
            self.bases[i]
        } else {
            u64::MAX
        }
    }
}

impl SpaceTable {
    pub proof fn lemma_dir(&self)
        requires
            self.wf(),
        ensures
            self.dir().valid(),
    {
    }

    /// Positions in the segment-wide tuple space stay far below 2^48.
    pub proof fn lemma_small(&self, g: int)
        requires
            self.wf(),
            self.covers(g),
        ensures
            0 <= g < 0x100_0000,
            0 <= self.dir().below(g * 256) < 0x1_0000_0000_0000,
    {
        lemma_below_mono(self.dir(), 0, g * 256);
        lemma_below_nonneg(self.dir(), g * 256);
    }

    /// A tuple that the directory knows lies in a group that is laid out.
    pub proof fn lemma_holds_covered(&self, t: Tid)
        requires
            self.wf(),
            self.dir().holds(t),
        ensures
            self.covers(t.spec_group()),
    {
        let d = self.dir();
        assert(d.first <= t.block < d.first + d.widths.len());
        assert(d.first / 256 <= t.block as int / 256 <= (d.first + d.widths.len() - 1) / 256);
    }
}

/// A group outside the table has no line pointers.
pub proof fn lemma_uncovered(t: SpaceTable, g: int)
    requires
        t.wf(),
        !t.covers(g),
    ensures
        forall|p: int| 0 <= p <= 256 ==> #[trigger] t.dir().start(g, p) == 0,
{
    let d = t.dir();
    if d.widths.len() == 0 {
        assert(total(d.widths, 0) == 0);
    }
    assert forall|p: int| 0 <= p <= 256 implies #[trigger] d.start(g, p) == 0 by {
        if t.groups() > 0 {
            if g < t.spec_first() {
                assert(g * 256 + p <= d.first);
            } else {
                assert(g * 256 >= d.first + d.widths.len());
            }
        }
    }
}

/// The groups that are laid out are exactly those with a block of the
/// directory, whatever its width; any other group has no line pointers.
pub proof fn spaces_follow_directory(t: SpaceTable)
    requires
        t.wf(),
    ensures
        forall|g: int| #[trigger] t.covers(g) <==> t.dir().reaches(g),
        forall|g: int, p: int| !t.covers(g) && 0 <= p <= 256 ==> #[trigger] t.dir().start(g, p) == 0,
{
    let d = t.dir();
    assert forall|g: int| #[trigger] t.covers(g) <==> d.reaches(g) by {
        if t.covers(g) {
            let b = if g * 256 > d.first { g * 256 } else { d.first };
            assert(d.first <= b < d.first + d.widths.len());
            assert(group_of_block(b) == g);
        }
        if d.reaches(g) {
            let b = choose|b: int| d.first <= b < d.first + d.widths.len() && #[trigger] group_of_block(b) == g;
            assert(d.first / 256 <= b / 256 <= (d.first + d.widths.len() - 1) / 256);
        }
    }
    assert forall|g: int, p: int| !t.covers(g) && 0 <= p <= 256 implies #[trigger] d.start(g, p) == 0 by {
        lemma_uncovered(t, g);
    }
}

/// `a` is the lowest page of the mask.
pub open spec fn is_first(mask: &PageBits, a: int) -> bool {
    mask.has(a) && forall|x: int| x < a ==> !#[trigger] mask.has(x)
}

/// `b` is the highest page of the mask.
pub open spec fn is_last(mask: &PageBits, b: int) -> bool {
    mask.has(b) && forall|x: int| b < x ==> !#[trigger] mask.has(x)
}

/// Ordered by page, then by line pointer, with no repeats.
pub open spec fn tuples_ascend(s: Seq<(u8, u16)>) -> bool {
    forall|i: int, j: int| 0 <= i < j < s.len() ==> (#[trigger] s[i]).0 < (#[trigger] s[j]).0 || (s[i].0 == s[j].0 && s[i].1 < s[j].1)
}

pub proof fn lemma_push_contains<A>(s: Seq<A>, a: A, x: A)
    ensures
        s.push(a).contains(x) <==> s.contains(x) || x == a,
{
    if s.contains(x) {
        let i = s.index_of(x);
        assert(s.push(a)[i] == x);
    }
    if x == a {
        assert(s.push(a)[s.len() as int] == x);
    }
    if s.push(a).contains(x) {
        let i = s.push(a).index_of(x);
        if i < s.len() {
            assert(s[i] == x);
        }
    }
}

} // verus!
