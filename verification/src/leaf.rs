//! The cursors that read one term's postings.

use vstd::prelude::*;
use crate::bitmap::PageBits;
use crate::cursor::{group_limit, hit, lemma_hit, none_between, Cursor, Model};
use crate::space::{lemma_page_at, lemma_slot, lemma_start_mono, lemma_start_step, lemma_tid_at, GroupSpace, Widths};
use crate::stream::{copy_bits_or, read_word, stream_bit};
use crate::tid::Tid;
use crate::varint;
use crate::wire::{
    block_count, block_first, block_key, block_ok, block_pos, gap, gap_pos, key_limit, keys_in_block, body_has, body_head,
    body_ok, body_page, body_pages, body_pos, group_no, groups_has, groups_ok, head_ok, head_pos, lemma_group_no_mono,
    lemma_page_offset_mono, num_ok, page_offset, skip_first, skip_len, sparse_has, sparse_key, sparse_ok, tid_of_key,
    PAGE_LIST_MAX, SKIP_BLOCK,
};
use crate::words;
use crate::words::bit;

verus! {

/// The cursor of a term in one tuple.
pub struct SingletonCursor {
    tid: Tid,
    dir: Ghost<Widths>,
    floor: Ghost<int>,
    at: Ghost<Option<u32>>,
}

impl SingletonCursor {
    pub fn new(tid: Tid, Ghost(dir): Ghost<Widths>) -> (r: Self)
        requires
            dir.valid(),
            dir.holds(tid),
        ensures
            r.wf(),
            r.model().dir == dir,
            r.model().tids == set![tid],
            r.model().cost == 1,
            r.floor() == 0,
            r.at() is None,
    {
        SingletonCursor { tid, dir: Ghost(dir), floor: Ghost(0), at: Ghost(None) }
    }
}

impl Cursor for SingletonCursor {
    closed spec fn wf(&self) -> bool {
        &&& self.dir@.valid()
        &&& self.dir@.holds(self.tid)
        &&& self.at@ is Some ==> self.at@->0 == self.tid.spec_group()
    }

    closed spec fn model(&self) -> Model {
        Model { dir: self.dir@, tids: set![self.tid], cost: 1, height: 0 }
    }

    closed spec fn floor(&self) -> int {
        self.floor@
    }

    closed spec fn at(&self) -> Option<u32> {
        self.at@
    }

    proof fn lemma_model(&self) {
    }

    fn seek(&mut self, target: u32) -> (r: Option<u32>) {
        let g: u32 = self.tid.group();
        let r: Option<u32> = if g >= target {
            Some(g)
        } else {
            None
        };
        proof {
            if !(self.at@ is Some && self.at@->0 >= target) {
                self.floor@ = target as int;
            }
            self.at@ = r;
        }
        r
    }

    fn pages(&mut self) -> (r: PageBits) {
        let mut p: PageBits = PageBits::zero();
        p.set(self.tid.page_in_group() as usize);
        p
    }

    fn or_into(&mut self, mask: &PageBits, space: &GroupSpace<'_>, out: &mut Vec<u64>) {
        let page: usize = self.tid.page_in_group() as usize;
        let ghost m = self.model();
        let ghost g = space.group();
        proof {
            lemma_slot(m.dir, self.tid);
            assert forall|x: int| hit(m, g, *mask, x) <==> (mask.has(page as int) && x == m.dir.slot(self.tid)) by {
                lemma_hit(m, g, *mask, x);
                if mask.has(page as int) && x == m.dir.slot(self.tid) {
                    assert(m.tids.contains(self.tid));
                }
            }
        }
        if mask.get(page) {
            let b: usize = space.start(page) + self.tid.offset_bit() as usize;
            words::set_bit(out, b);
        }
    }

    fn cost(&self) -> (r: u64) {
        1
    }
}

/// Where a block of a sparse list starts.
#[derive(Copy, Clone)]
struct Block {
    /// Its first key.
    first: u64,
    /// Byte position of the gaps to the others.
    pos: usize,
    /// How many keys it has.
    count: usize,
}

/// Reads a sparse (gap-coded key list) term one group at a time, jumping
/// through the skip table when a seek goes past whole blocks.
pub struct SparseCursor<'a> {
    data: &'a [u8],
    pos: usize,
    /// Short lists are a single block.
    blocks: Vec<Block>,
    block: usize,
    /// Keys still to decode in the current block after `next`.
    left_in_block: usize,
    /// The key of `next`.
    prev_key: u64,
    /// Next undelivered tid (already decoded).
    next: Option<Tid>,
    cur: Option<u32>,
    /// (page, bit) of every tid in the current group, ascending.
    entries: Vec<(u8, u16)>,
    pages: PageBits,
    doc_count: u64,
    dir: Ghost<Widths>,
    floor: Ghost<int>,
    /// Where the list starts.
    base: Ghost<int>,
    /// The index of `next`.
    idx: Ghost<int>,
}

/// The group of the `i`th key of a sparse list.
spec fn key_group(d: Seq<u8>, base: int, n: int, i: int) -> int {
    tid_of_key(sparse_key(d, base, n, i)).spec_group()
}

/// Group order is key order.
proof fn lemma_key_group_mono(d: Seq<u8>, base: int, n: int, i: int, j: int)
    requires
        sparse_ok(d, base, n),
        0 <= i <= j < n,
    ensures
        0 <= key_group(d, base, n, i) <= key_group(d, base, n, j) < group_limit(),
{
    if i < j {
        assert(sparse_key(d, base, n, i) < sparse_key(d, base, n, j));
    }
    let (a, b) = (sparse_key(d, base, n, i), sparse_key(d, base, n, j));
    assert(a / 512 <= b / 512);
    assert(b / 512 <= u32::MAX);
    assert((a / 512) / 256 <= (b / 512) / 256);
}

impl<'a> SparseCursor<'a> {
    spec fn n(&self) -> int {
        self.doc_count as int
    }

    spec fn key(&self, i: int) -> int {
        sparse_key(self.data@, self.base@, self.n(), i)
    }

    spec fn grp(&self, i: int) -> int {
        key_group(self.data@, self.base@, self.n(), i)
    }

    /// The group of block `b`'s first key.
    spec fn block_grp(&self, b: int) -> int {
        self.grp(64 * b)
    }

    /// The list and its blocks.
    spec fn list_ok(&self) -> bool {
        let (d, n) = (self.data@, self.n());
        &&& sparse_ok(d, self.base@, n)
        &&& self.dir@.valid()
        &&& forall|t: Tid| #[trigger] sparse_has(d, self.base@, n, t) ==> self.dir@.holds(t)
        &&& self.blocks@.len() == block_count(n)
        &&& forall|b: int| 0 <= b < block_count(n) ==> {
            &&& (#[trigger] self.blocks@[b]).first == block_first(d, self.base@, n, b)
            &&& self.blocks@[b].pos == block_pos(d, self.base@, n, b)
            &&& self.blocks@[b].count == keys_in_block(n, b)
        }
    }

    /// The read position is at key `idx`.
    spec fn pos_ok(&self) -> bool {
        let (d, n, b) = (self.data@, self.n(), self.block as int);
        let j = self.idx@ - 64 * b;
        &&& 0 <= b < block_count(n)
        &&& 0 <= self.idx@ <= n
        &&& self.idx@ < n <==> self.next is Some
        &&& self.idx@ < n ==> {
            &&& 0 <= j < keys_in_block(n, b)
            &&& self.left_in_block == keys_in_block(n, b) - 1 - j
            &&& self.pos == gap_pos(d, block_pos(d, self.base@, n, b), j)
            &&& self.prev_key == self.key(self.idx@)
            &&& self.next == Some(tid_of_key(self.key(self.idx@)))
        }
    }

    /// What was passed lies below the floor or in the current group.
    spec fn passed_ok(&self) -> bool {
        &&& forall|i: int| 0 <= i < self.idx@ ==> #[trigger] self.grp(i) < self.floor@ || (self.cur is Some && self.grp(i) == self.cur->0)
        &&& self.cur is Some ==> {
            &&& self.cur->0 < group_limit()
            &&& forall|i: int| self.idx@ <= i < self.n() ==> #[trigger] self.grp(i) > self.cur->0
            &&& forall|i: int| 0 <= i < self.idx@ && #[trigger] self.grp(i) == self.cur->0 ==> self.has_entry(tid_of_key(self.key(i)))
            &&& forall|k: int| 0 <= k < self.entries@.len() ==> self.is_entry(#[trigger] self.entries@[k])
            &&& forall|k: int| 0 <= k < self.entries@.len() ==> self.pages.has((#[trigger] self.entries@[k]).0 as int)
        }
    }

    /// The tid is among the entries of the current group.
    spec fn has_entry(&self, t: Tid) -> bool {
        self.entries@.contains((t.spec_page() as u8, t.spec_bit() as u16))
    }

    /// An entry stands for a tid of the current group.
    spec fn is_entry(&self, e: (u8, u16)) -> bool {
        let t = Tid::at(self.cur->0 as int, e.0 as int, e.1 as int);
        &&& sparse_has(self.data@, self.base@, self.n(), t)
        &&& e.1 < 0xFFFF
    }

    pub fn new(data: &'a [u8], pos: usize, doc_count: u64, Ghost(dir): Ghost<Widths>) -> (r: Self)
        requires
            sparse_ok(data@, pos as int, doc_count as int),
            dir.valid(),
            forall|t: Tid| #[trigger] sparse_has(data@, pos as int, doc_count as int, t) ==> dir.holds(t),
        ensures
            r.wf(),
            r.model().dir == dir,
            r.model().tids == Set::new(|t: Tid| sparse_has(data@, pos as int, doc_count as int, t)),
            r.model().cost == doc_count,
            r.floor() == 0,
            r.at() is None,
    {
        let ghost base = pos as int;
        let ghost d = data@;
        let ghost n = doc_count as int;
        let mut at: usize = pos;
        let mut blocks: Vec<Block> = Vec::new();
        if doc_count <= SKIP_BLOCK as u64 {
            proof {
                assert(gap_pos(d, base, 0) == base);
                assert(num_ok(d, gap_pos(d, base, 0)));
            }
            let first: u64 = varint::get(data, &mut at);
            blocks.push(Block { first, pos: at, count: doc_count as usize });
            proof {
                assert(gap_pos(d, base, 1) == at);
            }
        } else {
            let total: u64 = (doc_count - 1) / (SKIP_BLOCK as u64) + 1;
            proof {
                assert(total == block_count(n));
                assert(block_ok(d, base, n, total - 1));
                lemma_first_bound(d, base, n);
            }
            let mut first: u64 = 0;
            let mut lens: Vec<u64> = Vec::new();
            let mut b: u64 = 0;
            proof {
                assert(skip_first(d, base, -1) == 0);
            }
            while b < total
                invariant
                    d == data@,
                    n == doc_count,
                    n > 64,
                    total == block_count(n),
                    b <= total,
                    sparse_ok(d, base, n),
                    at == gap_pos(d, base, 2 * b),
                    first == skip_first(d, base, b - 1),
                    lens@.len() == b,
                    blocks@.len() == b,
                    forall|c: int| 0 <= c < total ==> 0 <= #[trigger] skip_first(d, base, c) < key_limit(),
                    forall|c: int| 0 <= c < b ==> (#[trigger] blocks@[c]).first == skip_first(d, base, c) && blocks@[c].count == keys_in_block(n, c),
                    forall|c: int| 0 <= c < b ==> #[trigger] lens@[c] == gap(d, base, 2 * c + 1),
                decreases total - b,
            {
                proof {
                    assert(num_ok(d, gap_pos(d, base, 2 * b)));
                    assert(num_ok(d, gap_pos(d, base, 2 * b + 1)));
                    assert(0 <= skip_first(d, base, b as int) < key_limit());
                    assert(skip_first(d, base, b as int) == skip_first(d, base, b - 1) + gap(d, base, 2 * b));
                }
                let delta: u64 = varint::get(data, &mut at);
                first = first + delta;
                proof {
                    assert(at == gap_pos(d, base, 2 * b + 1));
                }
                let len: u64 = varint::get(data, &mut at);
                proof {
                    assert(at == gap_pos(d, base, 2 * b + 2));
                }
                lens.push(len);
                assert(b * 64 < n);
                let left: u64 = doc_count - b * SKIP_BLOCK as u64;
                let count: usize = if left < SKIP_BLOCK as u64 { left as usize } else { SKIP_BLOCK };
                let ghost was = blocks@;
                blocks.push(Block { first, pos: 0, count });
                proof {
                    assert(count == keys_in_block(n, b as int));
                    assert forall|c: int| 0 <= c < b + 1 implies (#[trigger] blocks@[c]).first == skip_first(d, base, c)
                        && blocks@[c].count == keys_in_block(n, c) by {
                        if c < b {
                            assert(blocks@[c] == was[c]);
                        }
                    }
                }
                b = b + 1;
            }
            let table_end: usize = at;
            let mut i: usize = 0;
            while i < blocks.len()
                invariant
                    d == data@,
                    n == doc_count,
                    n > 64,
                    total == block_count(n),
                    sparse_ok(d, base, n),
                    table_end == gap_pos(d, base, 2 * total),
                    i <= blocks@.len(),
                    lens@.len() == total,
                    blocks@.len() == total,
                    i < total ==> at == block_pos(d, base, n, i as int),
                    forall|c: int| 0 <= c < total ==> (#[trigger] blocks@[c]).first == skip_first(d, base, c) && blocks@[c].count == keys_in_block(n, c),
                    forall|c: int| 0 <= c < total ==> #[trigger] lens@[c] == gap(d, base, 2 * c + 1),
                    forall|c: int| 0 <= c < i ==> #[trigger] blocks@[c].pos == block_pos(d, base, n, c),
                decreases blocks@.len() - i,
            {
                let mut blk: Block = blocks[i];
                blk.pos = at;
                blocks.set(i, blk);
                i = i + 1;
                if i < blocks.len() {
                    proof {
                        assert(block_ok(d, base, n, i as int));
                        assert(skip_len(d, base, i as int) == skip_len(d, base, i - 1) + gap(d, base, 2 * (i - 1) + 1));
                    }
                    let len: u64 = lens[i - 1];
                    assert(at + len <= data@.len());
                    let end: usize = data.len();
                    at = at + len as usize;
                }
            }
        }
        let head: Block = blocks[0];
        let mut c: SparseCursor<'a> = SparseCursor {
            data,
            pos: head.pos,
            blocks,
            block: 0,
            left_in_block: 0,
            prev_key: 0,
            next: None,
            cur: None,
            entries: Vec::new(),
            pages: PageBits::zero(),
            doc_count,
            dir: Ghost(dir),
            floor: Ghost(0),
            base: Ghost(base),
            idx: Ghost(n),
        };
        c.enter_block(0);
        c
    }

    fn enter_block(&mut self, b: usize)
        requires
            old(self).list_ok(),
            b < old(self).blocks@.len(),
        ensures
            final(self).list_ok(),
            final(self).pos_ok(),
            final(self).same_list(old(self)),
            final(self).idx@ == 64 * b,
            final(self).block == b,
    {
        let blk: Block = self.blocks[b];
        proof {
            assert(self.key(64 * b as int) == blk.first) by {
                assert((64 * b) / 64 == b && (64 * b) % 64 == 0);
                assert(block_key(self.data@, self.base@, self.n(), b as int, 0) == blk.first);
            }
            assert(0 <= sparse_key(self.data@, self.base@, self.n(), 64 * b) < key_limit());
        }
        self.block = b;
        self.pos = blk.pos;
        self.prev_key = blk.first;
        self.left_in_block = blk.count - 1;
        self.next = Some(Tid::from_key(blk.first));
        self.idx = Ghost(64 * b as int);
    }

    /// Everything but the read position is the same.
    spec fn same_list(&self, o: &Self) -> bool {
        &&& self.data == o.data
        &&& self.blocks == o.blocks
        &&& self.doc_count == o.doc_count
        &&& self.dir == o.dir
        &&& self.base == o.base
        &&& self.floor == o.floor
        &&& self.cur == o.cur
        &&& self.entries == o.entries
        &&& self.pages == o.pages
    }

    fn advance(&mut self)
        requires
            old(self).list_ok(),
            old(self).pos_ok(),
            old(self).next is Some,
        ensures
            final(self).list_ok(),
            final(self).pos_ok(),
            final(self).same_list(old(self)),
            final(self).idx@ == old(self).idx@ + 1,
    {
        let ghost (d, base, n, i) = (self.data@, self.base@, self.n(), self.idx@);
        let ghost b = self.block as int;
        proof {
            assert(block_ok(d, base, n, b));
        }
        let blocks: usize = self.blocks.len();
        if self.left_in_block > 0 {
            proof {
                let j = i - 64 * b;
                assert(num_ok(d, gap_pos(d, block_pos(d, base, n, b), j)));
                assert(i / 64 == b && i % 64 == j);
                assert((i + 1) / 64 == b && (i + 1) % 64 == j + 1);
                assert(0 <= sparse_key(d, base, n, i + 1) < key_limit());
                assert(sparse_key(d, base, n, i + 1) == sparse_key(d, base, n, i) + gap(d, block_pos(d, base, n, b), j));
            }
            self.left_in_block = self.left_in_block - 1;
            let delta: u64 = varint::get(self.data, &mut self.pos);
            self.prev_key = self.prev_key + delta;
            self.next = Some(Tid::from_key(self.prev_key));
            self.idx = Ghost(i + 1);
        } else if self.block + 1 < blocks {
            let nb: usize = self.block + 1;
            self.enter_block(nb);
        } else {
            self.next = None;
            self.idx = Ghost(i + 1);
        }
    }

    /// How many of the blocks after the current one start before group
    /// `target`.
    fn blocks_before(&self, target: u32) -> (r: usize)
        requires
            self.list_ok(),
            self.pos_ok(),
        ensures
            self.block + r < self.blocks@.len(),
            forall|b: int| self.block < b < self.blocks@.len() ==> (#[trigger] self.block_grp(b) < target <==> b <= self.block + r),
    {
        let mut hi: usize = self.blocks.len();
        let mut lo: usize = self.block + 1;
        while lo < hi
            invariant
                self.list_ok(),
                self.pos_ok(),
                self.block < lo <= hi <= self.blocks@.len(),
                forall|b: int| self.block < b < lo ==> #[trigger] self.block_grp(b) < target,
                forall|b: int| hi <= b < self.blocks@.len() ==> #[trigger] self.block_grp(b) >= target,
            decreases hi - lo,
        {
            let mid: usize = lo + (hi - lo) / 2;
            proof {
                let (d, base, n) = (self.data@, self.base@, self.n());
                let i = 64 * mid as int;
                assert(i / 64 == mid && i % 64 == 0);
                assert(block_key(d, base, n, mid as int, 0) == block_first(d, base, n, mid as int));
                assert(0 <= sparse_key(d, base, n, i) < key_limit());
                assert(self.blocks@[mid as int].first == block_first(d, base, n, mid as int));
            }
            let below: bool = Tid::from_key(self.blocks[mid].first).group() < target;
            proof {
                let (d, base, n) = (self.data@, self.base@, self.n());
                assert(below == (self.block_grp(mid as int) < target));
                assert forall|b: int| self.block < b < self.blocks@.len() implies (if b <= mid {
                    #[trigger] self.block_grp(b) <= self.block_grp(mid as int)
                } else {
                    self.block_grp(b) >= self.block_grp(mid as int)
                }) by {
                    if b <= mid {
                        lemma_key_group_mono(d, base, n, 64 * b, 64 * mid as int);
                    } else {
                        lemma_key_group_mono(d, base, n, 64 * mid as int, 64 * b);
                    }
                }
            }
            if below {
                lo = mid + 1;
            } else {
                hi = mid;
            }
        }
        lo - 1 - self.block
    }

    /// Move the read position to the first key of a group `>= target`.
    fn skip_to(&mut self, target: u32)
        requires
            old(self).list_ok(),
            old(self).pos_ok(),
            old(self).cur is None,
            forall|i: int| 0 <= i < old(self).idx@ ==> #[trigger] old(self).grp(i) < target,
        ensures
            final(self).list_ok(),
            final(self).pos_ok(),
            final(self).same_list(old(self)),
            forall|i: int| 0 <= i < final(self).idx@ ==> #[trigger] final(self).grp(i) < target,
            final(self).next is Some ==> final(self).next->0.spec_group() >= target,
    {
        if let Some(t) = self.next {
            if t.group() < target {
                // Jump to the last block that starts before `target`.
                let k: usize = self.blocks_before(target);
                let blocks: usize = self.blocks.len();
                if k > 0 {
                    let b: usize = self.block + k;
                    let ghost to = 64 * b as int;
                    proof {
                        assert(self.block_grp(b as int) < target);
                        assert forall|i: int| 0 <= i < to implies #[trigger] self.grp(i) < target by {
                            lemma_key_group_mono(self.data@, self.base@, self.n(), i, to);
                        }
                    }
                    self.enter_block(b);
                }
            }
        }
        let mut skip: bool = match self.next {
            Some(t) => t.group() < target,
            None => false,
        };
        while skip
            invariant
                self.list_ok(),
                self.pos_ok(),
                self.same_list(old(self)),
                skip == (self.next is Some && self.next->0.spec_group() < target),
                forall|i: int| 0 <= i < self.idx@ ==> #[trigger] self.grp(i) < target,
            decreases self.n() - self.idx@,
        {
            self.advance();
            skip = match self.next {
                Some(t) => t.group() < target,
                None => false,
            };
        }
    }

    /// Take the tids of group `g`, which `next` is the first of.
    fn gather(&mut self, g: u32)
        requires
            old(self).list_ok(),
            old(self).pos_ok(),
            old(self).next is Some,
            old(self).next->0.spec_group() == g,
        ensures
            final(self).list_ok(),
            final(self).pos_ok(),
            final(self).model() == old(self).model(),
            final(self).floor == old(self).floor,
            final(self).cur == Some(g),
            final(self).idx@ >= old(self).idx@,
            g < group_limit(),
            forall|i: int| 0 <= i < old(self).idx@ ==> final(self).grp(i) == #[trigger] old(self).grp(i),
            forall|i: int| old(self).idx@ <= i < final(self).idx@ ==> #[trigger] final(self).grp(i) == g && final(self).has_entry(tid_of_key(final(self).key(i))),
            forall|i: int| final(self).idx@ <= i < final(self).n() ==> #[trigger] final(self).grp(i) > g,
            forall|k: int| 0 <= k < final(self).entries@.len() ==> final(self).is_entry(#[trigger] final(self).entries@[k]),
            forall|k: int| 0 <= k < final(self).entries@.len() ==> final(self).pages.has((#[trigger] final(self).entries@[k]).0 as int),
    {
        let ghost from = self.idx@;
        self.entries.clear();
        self.pages = PageBits::zero();
        self.cur = Some(g);
        let mut more: bool = true;
        proof {
            lemma_key_group_mono(self.data@, self.base@, self.n(), from, from);
        }
        while more
            invariant
                self.list_ok(),
                self.pos_ok(),
                self.model() == old(self).model(),
                self.data == old(self).data && self.base == old(self).base && self.doc_count == old(self).doc_count,
                self.floor == old(self).floor,
                self.cur == Some(g),
                g < group_limit(),
                from == old(self).idx@,
                0 <= from < self.n(),
                from <= self.idx@,
                more == (self.next is Some && self.next->0.spec_group() == g),
                self.grp(from) == g,
                forall|i: int| from <= i < self.idx@ ==> #[trigger] self.grp(i) == g && self.has_entry(tid_of_key(self.key(i))),
                forall|k: int| 0 <= k < self.entries@.len() ==> self.is_entry(#[trigger] self.entries@[k]),
                forall|k: int| 0 <= k < self.entries@.len() ==> self.pages.has((#[trigger] self.entries@[k]).0 as int),
            decreases self.n() - self.idx@,
        {
            if let Some(t) = self.next {
                let e: (u8, u16) = (t.page_in_group(), t.offset_bit());
                let ghost was = self.entries@;
                let ghost i = self.idx@;
                let ghost s0 = *self;
                self.entries.push(e);
                self.pages.set(t.page_in_group() as usize);
                proof {
                    assert(t == tid_of_key(self.key(i)));
                    assert(sparse_has(self.data@, self.base@, self.n(), t)) by {
                        assert(t == tid_of_key(sparse_key(self.data@, self.base@, self.n(), i)));
                    }
                    assert(Tid::at(g as int, e.0 as int, e.1 as int) == t);
                    assert(self.entries@ == was.push(e));
                    assert(self.entries@[was.len() as int] == e);
                    assert(self.has_entry(t));
                    assert forall|k: int| from <= k < i implies self.has_entry(tid_of_key(#[trigger] self.key(k))) by {
                        assert(s0.grp(k) == g && s0.has_entry(tid_of_key(s0.key(k))));
                        let u = tid_of_key(self.key(k));
                        crate::space::lemma_push_contains(was, e, (u.spec_page() as u8, u.spec_bit() as u16));
                    }
                    assert forall|k: int| 0 <= k < self.entries@.len() implies self.is_entry(#[trigger] self.entries@[k]) by {
                        if k < was.len() {
                            assert(s0.is_entry(s0.entries@[k]));
                        }
                    }
                }
                let ghost s1 = *self;
                self.advance();
                proof {
                    assert forall|k: int| from <= k < self.idx@ implies #[trigger] self.grp(k) == g && self.has_entry(tid_of_key(self.key(k))) by {
                        if k < i {
                            assert(s0.grp(k) == g);
                            assert(s1.has_entry(tid_of_key(s1.key(k))));
                        }
                    }
                    assert forall|k: int| 0 <= k < self.entries@.len() implies self.is_entry(#[trigger] self.entries@[k]) by {
                        assert(s1.is_entry(s1.entries@[k]));
                    }
                }
            }
            more = match self.next {
                Some(t) => t.group() == g,
                None => false,
            };
        }
        proof {
            let (d, base, n) = (self.data@, self.base@, self.n());
            assert forall|i: int| self.idx@ <= i < n implies #[trigger] self.grp(i) > g by {
                lemma_key_group_mono(d, base, n, from, self.idx@);
                lemma_key_group_mono(d, base, n, self.idx@, i);
            }
        }
    }
}

/// The skip table's keys are in range.
proof fn lemma_first_bound(d: Seq<u8>, base: int, n: int)
    requires
        sparse_ok(d, base, n),
        n > 64,
    ensures
        forall|c: int| 0 <= c < block_count(n) ==> 0 <= #[trigger] skip_first(d, base, c) < key_limit(),
{
    assert forall|c: int| 0 <= c < block_count(n) implies 0 <= #[trigger] skip_first(d, base, c) < key_limit() by {
        assert((64 * c) / 64 == c && (64 * c) % 64 == 0);
        assert(0 <= sparse_key(d, base, n, 64 * c) < key_limit());
        assert(block_key(d, base, n, c, 0) == block_first(d, base, n, c));
    }
}

impl<'a> Cursor for SparseCursor<'a> {
    closed spec fn wf(&self) -> bool {
        self.list_ok() && self.pos_ok() && self.passed_ok()
    }

    closed spec fn model(&self) -> Model {
        Model {
            dir: self.dir@,
            tids: Set::new(|t: Tid| sparse_has(self.data@, self.base@, self.n(), t)),
            cost: self.doc_count,
            height: 0,
        }
    }

    closed spec fn floor(&self) -> int {
        self.floor@
    }

    closed spec fn at(&self) -> Option<u32> {
        self.cur
    }

    proof fn lemma_model(&self) {
    }

    fn seek(&mut self, target: u32) -> (r: Option<u32>) {
        if let Some(g) = self.cur {
            if g >= target {
                proof {
                    self.lemma_none(target as int, g as int);
                }
                return Some(g);
            }
        }
        let ghost before = *self;
        self.floor = Ghost(target as int);
        self.cur = None;
        proof {
            assert forall|i: int| 0 <= i < self.idx@ implies #[trigger] self.grp(i) < target by {
                assert(before.grp(i) < before.floor@ || (before.cur is Some && before.grp(i) == before.cur->0));
            }
        }
        self.skip_to(target);
        let first: Tid = match self.next {
            Some(t) => t,
            None => {
                proof {
                    self.lemma_none(target as int, group_limit());
                }
                return None;
            },
        };
        let g: u32 = first.group();
        let ghost mid = *self;
        self.gather(g);
        proof {
            assert forall|i: int| 0 <= i < self.idx@ implies #[trigger] self.grp(i) < self.floor@ || self.grp(i) == g by {
                if i < mid.idx@ {
                    assert(mid.grp(i) < target);
                }
            }
            assert forall|i: int| 0 <= i < self.idx@ && #[trigger] self.grp(i) == g implies self.has_entry(tid_of_key(self.key(i))) by {
                if i < mid.idx@ {
                    assert(mid.grp(i) < target);
                }
            }
            self.lemma_none(target as int, g as int);
        }
        Some(g)
    }

    fn pages(&mut self) -> (r: PageBits) {
        proof {
            let g = self.cur->0;
            assert forall|t: Tid| #[trigger] self.model().tids.contains(t) && t.spec_group() == g implies self.pages.has(t.spec_page()) by {
                self.lemma_entry(t);
                let k = self.entries@.index_of((t.spec_page() as u8, t.spec_bit() as u16));
                assert(self.entries@[k].0 == t.spec_page());
            }
        }
        self.pages
    }

    fn or_into(&mut self, mask: &PageBits, space: &GroupSpace<'_>, out: &mut Vec<u64>) {
        let ghost m = self.model();
        let ghost g = space.group();
        let ghost d = m.dir;
        let ghost before = out@;
        let mut i: usize = 0;
        while i < self.entries.len()
            invariant
                self.wf(),
                self.cur is Some,
                m == self.model(),
                m.valid(),
                d == m.dir,
                g == self.cur->0,
                space.wf(),
                space.dir() == d,
                space.group() == g,
                out@.len() >= space.spec_words(),
                out@.len() == before.len(),
                *self == *old(self),
                i <= self.entries@.len(),
                forall|x: int| bit(before, x) ==> #[trigger] bit(out@, x),
                forall|x: int| #[trigger] bit(out@, x) ==> bit(before, x) || hit(m, g, *mask, x),
                forall|k: int| 0 <= k < i && mask.has((#[trigger] self.entries@[k]).0 as int) ==> bit(out@, d.start(g, self.entries@[k].0 as int) + self.entries@[k].1),
            decreases self.entries@.len() - i,
        {
            let e: (u8, u16) = self.entries[i];
            if mask.get(e.0 as usize) {
                let ghost t = Tid::at(g, e.0 as int, e.1 as int);
                proof {
                    assert(self.is_entry(e));
                    assert(m.tids.contains(t));
                    crate::space::lemma_at(g, e.0 as int, e.1 as int);
                    lemma_slot(d, t);
                    lemma_hit(m, g, *mask, d.slot(t));
                }
                let b: usize = space.start(e.0 as usize) + e.1 as usize;
                words::set_bit(out, b);
            }
            i = i + 1;
        }
        proof {
            assert forall|x: int| #[trigger] bit(out@, x) == (bit(before, x) || hit(m, g, *mask, x)) by {
                if hit(m, g, *mask, x) {
                    lemma_hit(m, g, *mask, x);
                    let t = choose|t: Tid| m.tids.contains(t) && t.spec_group() == g && mask.has(t.spec_page()) && #[trigger] m.dir.slot(t) == x;
                    self.lemma_entry(t);
                    let k = self.entries@.index_of((t.spec_page() as u8, t.spec_bit() as u16));
                    assert(self.is_entry(self.entries@[k]));
                    lemma_slot(d, t);
                    assert(d.holds(t));
                    assert(self.entries@[k].0 == t.spec_page());
                    assert(self.entries@[k].1 == t.spec_bit());
                }
            }
        }
    }

    fn cost(&self) -> (r: u64) {
        self.doc_count
    }
}

impl<'a> SparseCursor<'a> {
    /// Every match in the current group is among the entries.
    proof fn lemma_entry(&self, t: Tid)
        requires
            self.wf(),
            self.cur is Some,
            self.model().tids.contains(t),
            t.spec_group() == self.cur->0,
        ensures
            self.has_entry(t),
    {
        let (d, base, n) = (self.data@, self.base@, self.n());
        let i = choose|i: int| 0 <= i < n && t == tid_of_key(#[trigger] sparse_key(d, base, n, i));
        assert(self.grp(i) == self.cur->0);
        if i >= self.idx@ {
            assert(self.grp(i) > self.cur->0);
        }
        assert(self.has_entry(tid_of_key(self.key(i))));
    }

    /// Keys before the read position lie below `lo` or in the current group,
    /// the others at or above `hi`: no tid lies between.
    proof fn lemma_none(&self, lo: int, hi: int)
        requires
            forall|i: int| 0 <= i < self.idx@ ==> #[trigger] self.grp(i) < lo || (self.cur is Some && self.grp(i) == self.cur->0),
            forall|i: int| self.idx@ <= i < self.n() ==> #[trigger] self.grp(i) >= hi,
            self.cur is Some ==> self.cur->0 >= hi,
        ensures
            none_between(self.model().tids, lo, hi),
    {
        let (d, base, n) = (self.data@, self.base@, self.n());
        assert forall|t: Tid| #[trigger] self.model().tids.contains(t) implies !(lo <= t.spec_group() < hi) by {
            let i = choose|i: int| 0 <= i < n && t == tid_of_key(#[trigger] sparse_key(d, base, n, i));
            assert(self.grp(i) == t.spec_group());
        }
    }
}

/// The largest postings area whose bits can be counted in a `usize`.
pub open spec fn bits_countable(d: Seq<u8>) -> bool {
    d.len() * 8 + 0x400_0000 <= usize::MAX
}

/// Reads a two-level-bitmap term. `seek` only touches group headers; a
/// group's page set is parsed on first use; bitstream positions are worked
/// out per *run* of consecutive pages (one run for a term on every page), and
/// only the runs that survive the caller's page mask are copied.
pub struct GroupsCursor<'a> {
    data: &'a [u8],
    /// Next group header.
    pos: usize,
    groups_left: u64,
    prev_group: u32,
    cur: Option<u32>,
    body_start: usize,
    parsed: bool,
    pages: PageBits,
    /// Bit position of the current group's bitstream.
    stream_bit: usize,
    doc_count: u64,
    dir: Ghost<Widths>,
    floor: Ghost<int>,
    /// Where the first header stands.
    base: Ghost<int>,
    /// Headers read so far.
    idx: Ghost<int>,
}

impl<'a> GroupsCursor<'a> {
    spec fn n(&self) -> int {
        self.idx@ + self.groups_left
    }

    spec fn grp(&self, i: int) -> int {
        group_no(self.data@, self.base@, i)
    }

    /// The headers and the read position.
    spec fn list_ok(&self) -> bool {
        &&& groups_ok(self.data@, self.base@, self.dir@, self.n())
        &&& self.dir@.valid()
        &&& bits_countable(self.data@)
        &&& 0 <= self.idx@
        &&& self.pos == head_pos(self.data@, self.base@, self.idx@)
        &&& self.prev_group == self.grp(self.idx@ - 1)
    }

    /// What was passed lies below the floor or is the current group.
    spec fn passed_ok(&self) -> bool {
        &&& forall|i: int| 0 <= i < self.idx@ ==> #[trigger] self.grp(i) < self.floor@ || (self.cur is Some && i == self.idx@ - 1)
        &&& self.cur is Some ==> {
            &&& self.idx@ >= 1
            &&& self.cur->0 == self.grp(self.idx@ - 1)
            &&& self.cur->0 < group_limit()
            &&& self.body_start == body_pos(self.data@, self.base@, self.idx@ - 1)
            &&& self.parsed ==> self.pages_ok()
        }
    }

    /// The page set and the bitstream's position were read.
    spec fn pages_ok(&self) -> bool {
        &&& forall|p: int| #[trigger] self.pages.has(p) == body_page(self.data@, self.body_start as int, p)
        &&& self.stream_bit == (self.body_start + body_head(self.data@, self.body_start as int)) * 8
    }

    pub fn new(data: &'a [u8], pos: usize, doc_count: u64, Ghost(dir): Ghost<Widths>) -> (r: Self)
        requires
            num_ok(data@, pos as int),
            groups_ok(data@, gap_pos(data@, pos as int, 1), dir, gap(data@, pos as int, 0)),
            dir.valid(),
            bits_countable(data@),
        ensures
            r.wf(),
            r.model().dir == dir,
            r.model().tids == Set::new(|t: Tid| groups_has(data@, gap_pos(data@, pos as int, 1), dir, gap(data@, pos as int, 0), t)),
            r.model().cost == doc_count,
            r.floor() == 0,
            r.at() is None,
    {
        let mut at: usize = pos;
        let groups_left: u64 = varint::get(data, &mut at);
        proof {
            assert(gap_pos(data@, pos as int, 0) == pos);
            assert(gap_pos(data@, pos as int, 1) == at);
            assert(group_no(data@, at as int, -1) == 0);
        }
        GroupsCursor {
            data,
            pos: at,
            groups_left,
            prev_group: 0,
            cur: None,
            body_start: 0,
            parsed: false,
            pages: PageBits::zero(),
            stream_bit: 0,
            doc_count,
            dir: Ghost(dir),
            floor: Ghost(0),
            base: Ghost(at as int),
            idx: Ghost(0),
        }
    }

    fn parse_pages(&mut self)
        requires
            old(self).wf(),
            old(self).cur is Some,
        ensures
            final(self).wf(),
            final(self).parsed,
            final(self).model() == old(self).model(),
            final(self).cur == old(self).cur,
            final(self).floor == old(self).floor,
    {
        let d: &[u8] = self.data;
        let at: usize = self.body_start;
        proof {
            assert(head_ok(d@, self.base@, self.dir@, self.idx@ - 1));
            lemma_page_offset_mono(self.dir@, self.cur->0 as int, body_pages(d@, at as int), 0, 256);
        }
        let len: usize = d.len();
        let n_pages: usize = d[at] as usize + 1;
        let mut pages: PageBits = PageBits::zero();
        if n_pages <= PAGE_LIST_MAX {
            let mut k: usize = 0;
            while k < n_pages
                invariant
                    k <= n_pages,
                    n_pages == d@[at as int] + 1,
                    at + 1 + n_pages <= d@.len(),
                    at + 1 + n_pages <= usize::MAX,
                    forall|p: int| #[trigger] pages.has(p) <==> exists|i: int| 0 <= i < k && #[trigger] d@[at + 1 + i] == p,
                decreases n_pages - k,
            {
                let ghost was = pages;
                let page: u8 = d[at + 1 + k];
                pages.set(page as usize);
                proof {
                    assert forall|p: int| #[trigger] pages.has(p) <==> exists|i: int| 0 <= i < k + 1 && #[trigger] d@[at + 1 + i] == p by {
                        if was.has(p) {
                            let i = choose|i: int| 0 <= i < k && #[trigger] d@[at + 1 + i] == p;
                            assert(d@[at + 1 + i] == p);
                        }
                        if p == page {
                            assert(d@[at + 1 + k] == p);
                        }
                    }
                }
                k = k + 1;
            }
            self.pages = pages;
            self.stream_bit = (at + 1 + n_pages) * 8;
        } else {
            let w0: u64 = read_word(d, (at + 1) * 8);
            let w1: u64 = read_word(d, (at + 9) * 8);
            let w2: u64 = read_word(d, (at + 17) * 8);
            let w3: u64 = read_word(d, (at + 25) * 8);
            pages = PageBits([w0, w1, w2, w3]);
            proof {
                assert forall|p: int| #[trigger] pages.has(p) == body_page(d@, at as int, p) by {
                    if 0 <= p < 256 {
                        let (k, j) = (p / 64, p % 64);
                        assert(words::word_bit(pages.0@[k], j) == stream_bit(d@, ((at + 1) * 8 + 64 * k) + j));
                    }
                }
            }
            self.pages = pages;
            self.stream_bit = (at + 33) * 8;
        }
        self.parsed = true;
        proof {
            assert(self.grp(self.idx@ - 1) == old(self).grp(self.idx@ - 1));
            assert forall|i: int| 0 <= i < self.idx@ implies #[trigger] self.grp(i) < self.floor@ || (self.cur is Some && i == self.idx@ - 1) by {
                assert(old(self).grp(i) < self.floor@ || i == self.idx@ - 1);
            }
        }
    }

    /// In the current group the matches are the body's tuples.
    proof fn lemma_current(&self, t: Tid)
        requires
            self.wf(),
            self.cur is Some,
            t.spec_group() == self.cur->0,
        ensures
            self.model().tids.contains(t) <==> t.offset >= 1 && body_has(self.data@, self.body_start as int, self.dir@, t.spec_group(), t.spec_page(), t.spec_bit()),
    {
        let (d, base, w, n) = (self.data@, self.base@, self.dir@, self.n());
        let c = self.idx@ - 1;
        assert(group_no(d, base, c) == t.spec_group());
        if groups_has(d, base, w, n, t) {
            let i = choose|i: int|
                0 <= i < n && #[trigger] group_no(d, base, i) == t.spec_group() && body_has(d, body_pos(d, base, i), w, t.spec_group(), t.spec_page(), t.spec_bit());
            if i < c {
                lemma_group_no_mono(d, base, w, n, i, c);
            }
            if c < i {
                lemma_group_no_mono(d, base, w, n, c, i);
            }
        }
    }

    /// The bits copied for the wanted pages `lo..hi` of the run
    /// `run_lo..run_hi` are the matches on those pages.
    proof fn lemma_copied(&self, m: Model, g: int, mask: PageBits, want: PageBits, run_lo: int, run_hi: int, lo: int, hi: int, x: int)
        requires
            self.wf(),
            self.cur is Some,
            self.parsed,
            m == self.model(),
            g == self.cur->0,
            forall|p: int| #[trigger] want.has(p) == (mask.has(p) && self.pages.has(p)),
            0 <= run_lo <= lo < hi <= run_hi <= 256,
            forall|p: int| run_lo <= p < run_hi ==> self.pages.has(p),
            forall|p: int| lo <= p < hi ==> #[trigger] bit(want.0@, p),
        ensures
            ({
                let w = m.dir;
                let set = body_pages(self.data@, self.body_start as int);
                let src = self.stream_bit + page_offset(w, g, set, run_lo) + (w.start(g, lo) - w.start(g, run_lo));
                (w.start(g, lo) <= x < w.start(g, hi) && stream_bit(self.data@, src + (x - w.start(g, lo)))) <==> hit(m, g, mask, x) && lo <= w.page_at(g, x) < hi
            }),
    {
        let w = m.dir;
        let (d, at) = (self.data@, self.body_start as int);
        let set = body_pages(d, at);
        lemma_start_mono(w, g, lo, hi);
        lemma_start_mono(w, g, hi, 256);
        let src = self.stream_bit + page_offset(w, g, set, run_lo) + (w.start(g, lo) - w.start(g, run_lo));
        if 0 <= x < w.bits(g) {
            lemma_page_at(w, g, x);
            lemma_tid_at(w, g, x);
            let p = w.page_at(g, x);
            let t = w.tid_at(g, x);
            crate::space::lemma_at(g, p, x - w.start(g, p)) ;
            if p < lo {
                lemma_start_mono(w, g, p + 1, lo);
            } else if p >= hi {
                lemma_start_mono(w, g, hi, p);
            } else {
                lemma_start_mono(w, g, lo, p);
                lemma_start_mono(w, g, p + 1, hi);
                assert(bit(want.0@, p));
                assert(want.has(p));
                assert forall|q: int| run_lo <= q < p implies set.contains(q) by {
                    assert(self.pages.has(q));
                }
                lemma_run_offset(w, g, set, run_lo, p);
                self.lemma_current(t);
                lemma_start_step(w, g, p);
                assert(src + (x - w.start(g, lo)) == (at + body_head(d, at)) * 8 + page_offset(w, g, set, p) + t.spec_bit());
                assert(body_page(d, at, p));
            }
        }
    }

    /// Headers before the read position lie below `lo` or at `hi`, the others
    /// at or above `hi`: no tid lies between.
    proof fn lemma_none(&self, lo: int, hi: int)
        requires
            forall|i: int| 0 <= i < self.idx@ ==> #[trigger] self.grp(i) < lo || self.grp(i) >= hi,
            forall|i: int| self.idx@ <= i < self.n() ==> #[trigger] self.grp(i) >= hi,
        ensures
            none_between(self.model().tids, lo, hi),
    {
        let (d, base, w, n) = (self.data@, self.base@, self.dir@, self.n());
        assert forall|t: Tid| #[trigger] self.model().tids.contains(t) implies !(lo <= t.spec_group() < hi) by {
            let i = choose|i: int|
                0 <= i < n && #[trigger] group_no(d, base, i) == t.spec_group() && body_has(d, body_pos(d, base, i), w, t.spec_group(), t.spec_page(), t.spec_bit());
            assert(self.grp(i) == t.spec_group());
        }
    }
}

/// Consecutive pages of the set take consecutive bits of the stream.
proof fn lemma_run_offset(w: Widths, g: int, set: Set<int>, lo: int, p: int)
    requires
        0 <= lo <= p <= 256,
        forall|q: int| lo <= q < p ==> set.contains(q),
    ensures
        page_offset(w, g, set, p) == page_offset(w, g, set, lo) + w.start(g, p) - w.start(g, lo),
    decreases p - lo,
{
    if lo < p {
        lemma_run_offset(w, g, set, lo, p - 1);
        lemma_start_step(w, g, p - 1);
    }
}

/// Pages outside the set take no bits of the stream.
proof fn lemma_gap_offset(w: Widths, g: int, set: Set<int>, lo: int, p: int)
    requires
        0 <= lo <= p <= 256,
        forall|q: int| lo <= q < p ==> !set.contains(q),
    ensures
        page_offset(w, g, set, p) == page_offset(w, g, set, lo),
    decreases p - lo,
{
    if lo < p {
        lemma_gap_offset(w, g, set, lo, p - 1);
    }
}

impl<'a> Cursor for GroupsCursor<'a> {
    closed spec fn wf(&self) -> bool {
        self.list_ok() && self.passed_ok()
    }

    closed spec fn model(&self) -> Model {
        Model {
            dir: self.dir@,
            tids: Set::new(|t: Tid| groups_has(self.data@, self.base@, self.dir@, self.n(), t)),
            cost: self.doc_count,
            height: 0,
        }
    }

    closed spec fn floor(&self) -> int {
        self.floor@
    }

    closed spec fn at(&self) -> Option<u32> {
        self.cur
    }

    proof fn lemma_model(&self) {
        let (d, base, w, n) = (self.data@, self.base@, self.dir@, self.n());
        assert forall|t: Tid| #[trigger] self.model().tids.contains(t) implies w.holds(t) by {
            let i = choose|i: int|
                0 <= i < n && #[trigger] group_no(d, base, i) == t.spec_group() && body_has(d, body_pos(d, base, i), w, t.spec_group(), t.spec_page(), t.spec_bit());
            assert(t.spec_group() * 256 + t.spec_page() == t.block);
        }
    }

    fn seek(&mut self, target: u32) -> (r: Option<u32>) {
        if let Some(g) = self.cur {
            if g >= target {
                proof {
                    assert forall|i: int| self.idx@ <= i < self.n() implies #[trigger] self.grp(i) >= g by {
                        lemma_group_no_mono(self.data@, self.base@, self.dir@, self.n(), self.idx@ - 1, i);
                    }
                    self.lemma_none(target as int, g as int);
                }
                return Some(g);
            }
        }
        let ghost before = *self;
        self.floor = Ghost(target as int);
        self.cur = None;
        proof {
            assert forall|i: int| 0 <= i < self.idx@ implies #[trigger] self.grp(i) < target by {
                assert(before.grp(i) < before.floor@ || (before.cur is Some && i == before.idx@ - 1));
            }
        }
        while self.groups_left > 0
            invariant
                self.list_ok(),
                self.cur is None,
                self.floor@ == target,
                self.model() == before.model(),
                before == *old(self),
                before.cur is Some ==> before.cur->0 < target,
                forall|i: int| 0 <= i < self.idx@ ==> #[trigger] self.grp(i) < target,
            decreases self.groups_left,
        {
            let ghost (d, base, w, n, i) = (self.data@, self.base@, self.dir@, self.n(), self.idx@);
            let ghost h = self.pos as int;
            let ghost s0 = *self;
            let data: &[u8] = self.data;
            let end: usize = data.len();
            proof {
                assert(head_ok(d, base, w, i));
                assert(num_ok(d, gap_pos(d, h, 0)));
                assert(num_ok(d, gap_pos(d, h, 1)));
                assert(gap_pos(d, h, 0) == h);
                assert(group_no(d, base, i) == group_no(d, base, i - 1) + gap(d, h, 0));
            }
            let delta: u64 = varint::get(data, &mut self.pos);
            assert(self.pos == gap_pos(d, h, 1));
            let g: u32 = self.prev_group + delta as u32;
            let len: u64 = varint::get(data, &mut self.pos);
            assert(self.pos == gap_pos(d, h, 2));
            let body_start: usize = self.pos;
            self.groups_left = self.groups_left - 1;
            self.prev_group = g;
            self.pos = self.pos + len as usize;
            self.idx = Ghost(i + 1);
            proof {
                assert(self.n() == n);
                assert(self.pos == head_pos(d, base, i + 1));
                assert forall|k: int| 0 <= k < i implies #[trigger] self.grp(k) < target by {
                    assert(s0.grp(k) < target);
                }
            }
            if g >= target {
                self.cur = Some(g);
                self.body_start = body_start;
                self.parsed = false;
                proof {
                    assert forall|k: int| 0 <= k < i implies #[trigger] self.grp(k) < target by {
                        assert(s0.grp(k) < target);
                    }
                    assert forall|k: int| i < k < self.n() implies #[trigger] self.grp(k) >= g by {
                        lemma_group_no_mono(d, base, w, n, i, k);
                    }
                    self.lemma_none(target as int, g as int);
                }
                return Some(g);
            }
        }
        proof {
            self.lemma_none(target as int, group_limit());
        }
        None
    }

    fn pages(&mut self) -> (r: PageBits) {
        if !self.parsed {
            self.parse_pages();
        }
        proof {
            assert forall|t: Tid| #[trigger] self.model().tids.contains(t) && t.spec_group() == self.cur->0 implies self.pages.has(t.spec_page()) by {
                self.lemma_current(t);
            }
        }
        self.pages
    }

    fn or_into(&mut self, mask: &PageBits, space: &GroupSpace<'_>, out: &mut Vec<u64>) {
        if !self.parsed {
            self.parse_pages();
        }
        let want: PageBits = *mask & self.pages;
        let ghost m = self.model();
        let ghost w = m.dir;
        let ghost g = space.group();
        let ghost before = out@;
        proof {
            self.lemma_model();
            assert forall|x: int| hit(m, g, *mask, x) implies want.has(w.page_at(g, x)) by {
                lemma_tid_at(w, g, x);
                self.lemma_current(w.tid_at(g, x));
            }
        }
        if want.is_zero() {
            return;
        }
        // Walk this term's page runs (each contiguous in the bitstream) in
        // step with the wanted runs, which always lie inside one of them.
        let data: &[u8] = self.data;
        let ghost d = data@;
        let ghost at = self.body_start as int;
        let ghost set = body_pages(d, at);
        let ghost base = self.stream_bit as int;
        let ghost len = gap(d, head_pos(d, self.base@, self.idx@ - 1), 1);
        proof {
            assert(head_ok(d, self.base@, w, self.idx@ - 1));
            assert(body_ok(d, at, len, w, g));
            assert(forall|p: int| #[trigger] set.contains(p) == self.pages.has(p));
            let p = choose|p: int| want.has(p);
            assert(self.pages.has(p));
        }
        let ghost snap = *self;
        let mut term_runs = self.pages.runs();
        let mut want_runs = want.runs();
        let mut run_lo: usize = 0;
        let mut run_hi: usize = 0;
        let mut run_bit: usize = self.stream_bit;
        proof {
            assert(page_offset(w, g, set, 0) == 0);
        }
        loop
            invariant
                *self == snap,
                self.model() == old(self).model(),
                self.cur == old(self).cur,
                self.floor == old(self).floor,
                before == old(out)@,
                self.wf(),
                self.cur is Some,
                self.parsed,
                m == self.model(),
                m.valid(),
                w == m.dir,
                g == self.cur->0,
                space.wf(),
                space.dir() == w,
                space.group() == g,
                d == data@,
                data@ == self.data@,
                at == self.body_start,
                base == self.stream_bit,
                set == body_pages(d, at),
                body_ok(d, at, len, w, g),
                forall|p: int| #[trigger] set.contains(p) == self.pages.has(p),
                forall|p: int| #[trigger] want.has(p) == (mask.has(p) && self.pages.has(p)),
                out@.len() == before.len(),
                out@.len() >= space.spec_words(),
                term_runs.wf(),
                term_runs.bits() == self.pages.0@,
                term_runs.at() == run_hi,
                want_runs.wf(),
                want_runs.bits() == want.0@,
                0 <= run_lo <= run_hi <= 256,
                forall|p: int| run_lo <= p < run_hi ==> self.pages.has(p),
                !self.pages.has(run_hi as int) || run_hi == 0,
                run_bit == base + page_offset(w, g, set, run_lo as int),
                forall|p: int| want_runs.at() <= p && #[trigger] want.has(p) ==> p >= run_lo,
                forall|x: int| #[trigger] bit(out@, x) == (bit(before, x) || (hit(m, g, *mask, x) && w.page_at(g, x) < want_runs.at())),
            decreases 256 - want_runs.at(),
        {
            let ghost from = want_runs.at();
            let (lo, hi): (usize, usize) = match want_runs.next() {
                None => {
                    proof {
                        assert forall|x: int| #[trigger] bit(out@, x) == (bit(before, x) || hit(m, g, *mask, x)) by {
                            if hit(m, g, *mask, x) && w.page_at(g, x) >= from {
                                lemma_tid_at(w, g, x);
                                self.lemma_current(w.tid_at(g, x));
                                assert(want.has(w.page_at(g, x)));
                            }
                        }
                    }
                    return;
                },
                Some(run) => run,
            };
            proof {
                assert(want.has(lo as int));
            }
            while run_hi <= lo
                invariant
                    *self == snap,
                    space.wf(),
                    space.dir() == w,
                    space.group() == g,
                    body_ok(d, at, len, w, g),
                    base == (at + body_head(d, at)) * 8,
                    bits_countable(d),
                    set == body_pages(d, at),
                    forall|p: int| #[trigger] set.contains(p) == self.pages.has(p),
                    self.pages.has(lo as int),
                    lo < 256,
                    term_runs.wf(),
                    term_runs.bits() == self.pages.0@,
                    term_runs.at() == run_hi,
                    0 <= run_lo <= run_hi <= 256,
                    run_lo <= lo,
                    forall|p: int| run_lo <= p < run_hi ==> self.pages.has(p),
                    !self.pages.has(run_hi as int) || run_hi == 0,
                    run_bit == base + page_offset(w, g, set, run_lo as int),
                decreases 256 - run_hi,
            {
                proof {
                    lemma_run_offset(w, g, set, run_lo as int, run_hi as int);
                    lemma_start_mono(w, g, run_lo as int, run_hi as int);
                    lemma_page_offset_mono(w, g, set, run_hi as int, 256);
                    lemma_page_offset_mono(w, g, set, 0, run_lo as int);
                }
                run_bit = run_bit + (space.start(run_hi) - space.start(run_lo));
                match term_runs.next() {
                    None => {
                        proof {
                            assert(bit(self.pages.0@, lo as int));
                            assert(false);
                        }
                        return;
                    },
                    Some((l2, h2)) => {
                        proof {
                            if l2 > lo {
                                assert(!bit(self.pages.0@, lo as int));
                            }
                            assert forall|q: int| run_hi <= q < l2 implies !set.contains(q) by {
                                assert(!bit(self.pages.0@, q));
                            }
                            lemma_gap_offset(w, g, set, run_hi as int, l2 as int);
                            assert forall|p: int| l2 <= p < h2 implies self.pages.has(p) by {
                                assert(bit(self.pages.0@, p));
                            }
                            assert(!bit(self.pages.0@, h2 as int));
                        }
                        run_lo = l2;
                        run_hi = h2;
                    },
                }
            }
            proof {
                if run_hi < hi {
                    assert(bit(want.0@, run_hi as int));
                    assert(want.has(run_hi as int));
                }
                lemma_run_offset(w, g, set, run_lo as int, lo as int);
                lemma_run_offset(w, g, set, run_lo as int, hi as int);
                lemma_start_mono(w, g, run_lo as int, lo as int);
                lemma_start_mono(w, g, lo as int, hi as int);
                lemma_page_offset_mono(w, g, set, hi as int, 256);
                lemma_page_offset_mono(w, g, set, 0, run_lo as int);
            }
            let dst: usize = space.start(lo);
            let src: usize = run_bit + (dst - space.start(run_lo));
            let count: usize = space.start(hi) - dst;
            let ghost was = out@;
            proof {
                lemma_start_mono(w, g, hi as int, 256);
            }
            copy_bits_or(data, src, out, dst, count);
            proof {
                assert forall|x: int| #[trigger] bit(out@, x) == (bit(before, x) || (hit(m, g, *mask, x) && w.page_at(g, x) < hi)) by {
                    assert(bit(was, x) == (bit(before, x) || (hit(m, g, *mask, x) && w.page_at(g, x) < from)));
                    self.lemma_copied(m, g, *mask, want, run_lo as int, run_hi as int, lo as int, hi as int, x);
                    if hit(m, g, *mask, x) {
                        let p = w.page_at(g, x);
                        lemma_tid_at(w, g, x);
                        self.lemma_current(w.tid_at(g, x));
                        assert(want.has(p));
                        if from <= p < lo {
                            assert(!bit(want.0@, p));
                        }
                    }
                }
            }
        }
    }

    fn cost(&self) -> (r: u64) {
        self.doc_count
    }
}

} // verus!
