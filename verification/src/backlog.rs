//! The pending list on pages: a chain whose pages are all full but the last,
//! read as one stream of records.

use vstd::prelude::*;
use crate::chain::{
    blob_page, blob_pages, chunk, data_of, header_bytes, holds_blob, lemma_header, link, next_block, next_of, pages_for,
    PagesView, CHAIN_CAP, CHAIN_HEADER,
};
use crate::le::{le_seq, lemma_le_at, lemma_le_limits, lemma_le_seq_len};
use crate::meta::{Meta, INVALID_BLOCK};
use crate::pending::put_bytes;
use crate::varint::embeds;

verus! {

// ---------------------------------------------------------------------------
// The list
// ---------------------------------------------------------------------------

/// Part `i` of `n` of the stream on `blocks`: a full page, or the used part
/// of the last one.
pub open spec fn part_of(pages: PagesView, blocks: Seq<u32>, used: int, i: int) -> Seq<u8> {
    data_of(pages[blocks[i]]).take(if i + 1 < blocks.len() { CHAIN_CAP as int } else { used })
}

/// The parts of the first `n` pages.
pub open spec fn parts(pages: PagesView, blocks: Seq<u32>, used: int, n: int) -> Seq<u8>
    decreases n,
{
    if n <= 0 {
        Seq::empty()
    } else {
        parts(pages, blocks, used, n - 1) + part_of(pages, blocks, used, n - 1)
    }
}

/// Pages linked one to the next, with data to be read from each.
pub open spec fn linked(pages: PagesView, blocks: Seq<u32>, used: int) -> bool {
    &&& 0 <= used <= CHAIN_CAP
    &&& blocks.no_duplicates()
    &&& forall|i: int| 0 <= i < blocks.len() ==> CHAIN_HEADER <= pages[#[trigger] blocks[i]].len() && data_of(pages[blocks[i]]).len()
        >= (if i + 1 < blocks.len() { CHAIN_CAP as int } else { used })
    &&& forall|i: int| 0 <= i < blocks.len() - 1 ==> next_of(pages[#[trigger] blocks[i]]) == blocks[i + 1]
    &&& forall|i: int| 0 <= i < blocks.len() ==> #[trigger] blocks[i] != INVALID_BLOCK
}

/// The pending list lies on `blocks` and holds `stream`.
pub open spec fn backlog_is(pages: PagesView, meta: Meta, blocks: Seq<u32>, stream: Seq<u8>) -> bool {
    &&& meta.pending_bytes == stream.len()
    &&& blocks.len() == 0 ==> meta.pending_head == INVALID_BLOCK && stream.len() == 0
    &&& blocks.len() > 0 ==> {
        &&& meta.pending_head == blocks[0]
        &&& meta.pending_tail == blocks.last()
        &&& linked(pages, blocks, meta.pending_tail_used as int)
        &&& stream == parts(pages, blocks, meta.pending_tail_used as int, blocks.len() as int)
        &&& stream.len() == (blocks.len() - 1) * CHAIN_CAP + meta.pending_tail_used
    }
}

// ---------------------------------------------------------------------------
// Appending
// ---------------------------------------------------------------------------

/// One change to a page, each logged on its own.
pub enum PageWrite {
    /// A new, empty page.
    Fresh(u32),
    /// A new page `1` behind page `0`.
    Link(u32, u32),
    /// Bytes at an offset of a page.
    Put(u32, usize, Vec<u8>),
}

/// What a [`PageWrite`] says.
pub ghost enum WriteView {
    Fresh(u32),
    Link(u32, u32),
    Put(u32, int, Seq<u8>),
}

impl View for PageWrite {
    type V = WriteView;

    open spec fn view(&self) -> WriteView {
        match self {
            PageWrite::Fresh(b) => WriteView::Fresh(*b),
            PageWrite::Link(a, b) => WriteView::Link(*a, *b),
            PageWrite::Put(b, at, bytes) => WriteView::Put(*b, *at as int, bytes@),
        }
    }
}

pub open spec fn write_views(s: Seq<PageWrite>) -> Seq<WriteView> {
    s.map_values(|w: PageWrite| w@)
}

/// `bytes` written over `p` from `at` on.
pub open spec fn written_over(p: Seq<u8>, at: int, bytes: Seq<u8>) -> Seq<u8> {
    Seq::new(
        (if at + bytes.len() > p.len() { (at + bytes.len()) as nat } else { p.len() }),
        |i: int| if at <= i < at + bytes.len() { bytes[i - at] } else { p[i] },
    )
}

/// The pages after a change.
pub open spec fn after_write(pages: PagesView, w: WriteView) -> PagesView {
    match w {
        WriteView::Fresh(b) => pages.insert(b, header_bytes(INVALID_BLOCK, 0)),
        WriteView::Link(a, b) => pages.insert(b, header_bytes(INVALID_BLOCK, 0)).insert(a, written_over(pages[a], 0, le_seq(b as nat, 4))),
        WriteView::Put(b, at, bytes) => pages.insert(b, written_over(pages[b], at, bytes)),
    }
}

/// The pages after changes, one after the other.
pub open spec fn after_writes(pages: PagesView, ws: Seq<WriteView>) -> PagesView
    decreases ws.len(),
{
    if ws.len() == 0 {
        pages
    } else {
        after_write(after_writes(pages, ws.drop_last()), ws.last())
    }
}

/// How many pages have to be linked to append `len` bytes behind `used`.
pub open spec fn links(used: int, len: int) -> int
    decreases len, (if used == CHAIN_CAP { 1int } else { 0int }),
{
    if used == CHAIN_CAP {
        1 + links(0, len)
    } else if used < 0 || used > CHAIN_CAP || len <= CHAIN_CAP - used {
        0
    } else {
        links(CHAIN_CAP as int, len - (CHAIN_CAP - used))
    }
}

/// How many pages have to be allocated to append a record of `len` bytes.
pub open spec fn pages_needed(meta: Meta, len: int) -> int {
    if meta.pending_head == INVALID_BLOCK {
        1 + links(0, len)
    } else {
        links(meta.pending_tail_used as int, len)
    }
}

/// How many pages have to be allocated to append a record of `len` bytes.
pub fn append_pages(meta: &Meta, len: usize) -> (r: usize)
    requires
        meta.pending_tail_used <= CHAIN_CAP,
        len <= usize::MAX / 2,
    ensures
        r == pages_needed(*meta, len as int),
{
    let first: bool = meta.pending_head == INVALID_BLOCK;
    let mut used: usize = if first {
        0
    } else {
        meta.pending_tail_used as usize
    };
    let mut n: usize = if first {
        1
    } else {
        0
    };
    let mut rest: usize = len;
    let ghost all = pages_needed(*meta, len as int);
    loop
        invariant
            used <= CHAIN_CAP,
            rest <= len <= usize::MAX / 2,
            n + links(used as int, rest as int) == all,
            n <= 2 + (len - rest),
            used == CHAIN_CAP ==> n <= 1 + (len - rest),
        ensures
            n == all,
        decreases rest, (if used == CHAIN_CAP { 1int } else { 0int }),
    {
        if used == CHAIN_CAP {
            n = n + 1;
            used = 0;
        } else if rest <= CHAIN_CAP - used {
            break;
        } else {
            rest = rest - (CHAIN_CAP - used);
            used = CHAIN_CAP;
        }
    }
    n
}

/// What appending `rest` behind `used` bytes of `tail` does, with `fresh`
/// pages to link.
pub open spec fn append_steps(tail: u32, used: int, rest: Seq<u8>, fresh: Seq<u32>) -> Seq<WriteView>
    decreases rest.len(), (if used == CHAIN_CAP { 1int } else { 0int }),
{
    if used == CHAIN_CAP {
        seq![WriteView::Link(tail, fresh[0])] + append_steps(fresh[0], 0, rest, fresh.skip(1))
    } else if used < 0 || used > CHAIN_CAP || rest.len() <= CHAIN_CAP - used {
        seq![WriteView::Put(tail, CHAIN_HEADER + used, rest)]
    } else {
        let take = CHAIN_CAP - used;
        seq![WriteView::Put(tail, CHAIN_HEADER + used, rest.take(take))] + append_steps(tail, CHAIN_CAP as int, rest.skip(take), fresh)
    }
}

/// Where the list ends after appending `len` bytes.
pub open spec fn append_end(tail: u32, used: int, len: int, fresh: Seq<u32>) -> (u32, int)
    decreases len, (if used == CHAIN_CAP { 1int } else { 0int }),
{
    if used == CHAIN_CAP {
        append_end(fresh[0], 0, len, fresh.skip(1))
    } else if used < 0 || used > CHAIN_CAP || len <= CHAIN_CAP - used {
        (tail, used + len)
    } else {
        append_end(tail, CHAIN_CAP as int, len - (CHAIN_CAP - used), fresh)
    }
}

/// Every change that appends `record` with `fresh` pages.
pub open spec fn append_writes(meta: Meta, record: Seq<u8>, fresh: Seq<u32>) -> Seq<WriteView> {
    if meta.pending_head == INVALID_BLOCK {
        seq![WriteView::Fresh(fresh[0])] + append_steps(fresh[0], 0, record, fresh.skip(1))
    } else {
        append_steps(meta.pending_tail, meta.pending_tail_used as int, record, fresh)
    }
}

/// Append one encoded record to the pending list with `fresh` pages: returns
/// the page changes, in order, and updates `meta`, which is written with the
/// last of them.
pub fn append_pending(meta: &mut Meta, record: &[u8], fresh: &[u32]) -> (r: Vec<PageWrite>)
    requires
        old(meta).pending_tail_used <= CHAIN_CAP,
        fresh@.len() == pages_needed(*old(meta), record@.len() as int),
        old(meta).pending_bytes + record@.len() <= u64::MAX,
        old(meta).pending_count < u64::MAX,
    ensures
        write_views(r@) == append_writes(*old(meta), record@, fresh@),
        final(meta).generation == old(meta).generation,
        final(meta).next_segment_id == old(meta).next_segment_id,
        final(meta).segments@ == old(meta).segments@,
        final(meta).retired@ == old(meta).retired@,
        final(meta).pending_bytes == old(meta).pending_bytes + record@.len(),
        final(meta).pending_count == old(meta).pending_count + 1,
        old(meta).pending_head == INVALID_BLOCK ==> {
            &&& final(meta).pending_head == fresh@[0]
            &&& (final(meta).pending_tail, final(meta).pending_tail_used as int) == append_end(fresh@[0], 0, record@.len() as int, fresh@.skip(1))
        },
        old(meta).pending_head != INVALID_BLOCK ==> {
            &&& final(meta).pending_head == old(meta).pending_head
            &&& (final(meta).pending_tail, final(meta).pending_tail_used as int) == append_end(
                old(meta).pending_tail,
                old(meta).pending_tail_used as int,
                record@.len() as int,
                fresh@,
            )
        },
        final(meta).pending_tail_used <= CHAIN_CAP,
{
    let ghost before = *meta;
    let n: usize = record.len();
    let n_fresh: usize = fresh.len();
    let mut out: Vec<PageWrite> = Vec::new();
    let mut f: usize = 0;
    proof {
        assert(fresh@.skip(0) =~= fresh@);
    }
    if meta.pending_head == INVALID_BLOCK {
        proof {
            lemma_links(0, record@.len() as int);
        }
        out.push(PageWrite::Fresh(fresh[0]));
        meta.pending_head = fresh[0];
        meta.pending_tail = fresh[0];
        meta.pending_tail_used = 0;
        f = 1;
    }
    let ghost tail0 = meta.pending_tail;
    let ghost used0 = meta.pending_tail_used as int;
    let ghost fresh0 = fresh@.skip(f as int);
    let ghost mid = *meta;
    let mut tail: u32 = meta.pending_tail;
    let mut used: usize = meta.pending_tail_used as usize;
    let mut at: usize = 0;
    proof {
        assert(record@.skip(0) =~= record@);
        assert(write_views(out@) + append_steps(tail0, used0, record@, fresh0) =~= append_writes(before, record@, fresh@));
    }
    loop
        invariant_except_break
            n_fresh - f == links(used as int, n - at),
            write_views(out@) + append_steps(tail, used as int, record@.skip(at as int), fresh@.skip(f as int)) == append_writes(before, record@, fresh@),
            append_end(tail, used as int, n - at, fresh@.skip(f as int)) == append_end(tail0, used0, n as int, fresh0),
        invariant
            n == record@.len(),
            n_fresh == fresh@.len(),
            at <= n,
            f <= n_fresh,
            used <= CHAIN_CAP,
            *meta == mid,
        ensures
            *meta == mid,
            write_views(out@) == append_writes(before, record@, fresh@),
            (tail, used as int) == append_end(tail0, used0, n as int, fresh0),
            used <= CHAIN_CAP,
        decreases n - at, (if used == CHAIN_CAP { 1int } else { 0int }),
    {
        let ghost was = write_views(out@);
        let ghost rest = record@.skip(at as int);
        let ghost left = fresh@.skip(f as int);
        if used == CHAIN_CAP {
            proof {
                lemma_links(0, n - at);
                assert(left[0] == fresh@[f as int]);
                assert(left.skip(1) =~= fresh@.skip(f + 1));
            }
            out.push(PageWrite::Link(tail, fresh[f]));
            proof {
                assert(write_views(out@) =~= was.push(WriteView::Link(tail, left[0])));
                assert(was + (seq![WriteView::Link(tail, left[0])] + append_steps(left[0], 0, rest, left.skip(1))) =~= write_views(out@)
                    + append_steps(left[0], 0, rest, left.skip(1)));
            }
            tail = fresh[f];
            used = 0;
            f = f + 1;
        } else if n - at <= CHAIN_CAP - used {
            let bytes: Vec<u8> = vstd::slice::slice_to_vec(vstd::slice::slice_subrange(record, at, n));
            proof {
                assert(bytes@ =~= rest);
            }
            out.push(PageWrite::Put(tail, CHAIN_HEADER + used, bytes));
            proof {
                assert(write_views(out@) =~= was + seq![WriteView::Put(tail, CHAIN_HEADER + used as int, rest)]);
            }
            used = used + (n - at);
            break;
        } else {
            let take: usize = CHAIN_CAP - used;
            let bytes: Vec<u8> = vstd::slice::slice_to_vec(vstd::slice::slice_subrange(record, at, at + take));
            proof {
                assert(bytes@ =~= rest.take(take as int));
                assert(rest.skip(take as int) =~= record@.skip(at + take));
            }
            out.push(PageWrite::Put(tail, CHAIN_HEADER + used, bytes));
            proof {
                let w = WriteView::Put(tail, CHAIN_HEADER + used as int, rest.take(take as int));
                assert(write_views(out@) =~= was.push(w));
                let more = append_steps(tail, CHAIN_CAP as int, rest.skip(take as int), left);
                assert(was + (seq![w] + more) =~= write_views(out@) + more);
            }
            at = at + take;
            used = CHAIN_CAP;
        }
    }
    meta.pending_tail = tail;
    meta.pending_tail_used = used as u32;
    meta.pending_bytes = meta.pending_bytes + n as u64;
    meta.pending_count = meta.pending_count + 1;
    out
}

proof fn lemma_links(used: int, len: int)
    ensures
        links(used, len) >= 0,
    decreases len, (if used == CHAIN_CAP { 1int } else { 0int }),
{
    if used == CHAIN_CAP {
        lemma_links(0, len);
    } else if 0 <= used <= CHAIN_CAP && len > CHAIN_CAP - used {
        lemma_links(CHAIN_CAP as int, len - (CHAIN_CAP - used));
    }
}

// ---------------------------------------------------------------------------
// Reading
// ---------------------------------------------------------------------------

/// Where an incremental reader of the pending stream stopped.
#[derive(Copy, Clone, Debug, PartialEq, Eq, Structural)]
pub struct PendingPos {
    pub block: u32,
    pub used: u32,
    pub total: u64,
}

impl Default for PendingPos {
    fn default() -> (r: Self)
        ensures
            r == (PendingPos { block: 0, used: 0, total: 0 }),
    {
        PendingPos { block: 0, used: 0, total: 0 }
    }
}

impl PendingPos {
    pub fn start(meta: &Meta) -> (r: PendingPos)
        ensures
            r == (PendingPos { block: meta.pending_head, used: 0, total: 0 }),
    {
        PendingPos { block: meta.pending_head, used: 0, total: 0 }
    }

    /// The position after the first `total` bytes of the stream.
    pub open spec fn stands(self, blocks: Seq<u32>) -> bool {
        &&& self.used <= CHAIN_CAP
        &&& exists|k: int| 0 <= k < blocks.len() && self.block == #[trigger] blocks[k] && self.total == k * CHAIN_CAP + self.used
    }
}

/// Reads the pending stream page by page.
pub struct BacklogReader {
    /// Where it is.
    pub pos: PendingPos,
    /// What it read.
    pub out: Vec<u8>,
}

impl BacklogReader {
    /// A reader from `from` on. Nothing read yet (possibly while the list was
    /// still empty): start at the current head.
    pub fn new(meta: &Meta, from: PendingPos) -> (r: Self)
        ensures
            r.out@.len() == 0,
            r.pos == if from.total == 0 { (PendingPos { block: meta.pending_head, used: 0, total: 0 }) } else { from },
    {
        BacklogReader {
            pos: if from.total == 0 {
                PendingPos::start(meta)
            } else {
                from
            },
            out: Vec::new(),
        }
    }

    /// Whether there is more to read, from page `pos.block`.
    pub fn more(&self, meta: &Meta) -> (r: bool)
        ensures
            r == (self.pos.total < meta.pending_bytes),
    {
        self.pos.total < meta.pending_bytes
    }

    /// What it read is the stream from `from` to where it stands.
    pub open spec fn on(&self, pages: PagesView, meta: Meta, blocks: Seq<u32>, stream: Seq<u8>, from: int) -> bool {
        &&& self.pos.stands(blocks)
        &&& 0 <= from <= self.pos.total <= stream.len()
        &&& self.out@ == stream.subrange(from, self.pos.total as int)
    }

    /// Take page `pos.block`: follow its link if it was read to the end, else
    /// read what is left there.
    pub fn take(&mut self, meta: &Meta, page: &[u8])
        requires
            old(self).pos.total < meta.pending_bytes,
            old(self).pos.used <= CHAIN_CAP,
            page@.len() >= CHAIN_HEADER,
            old(self).pos.used < CHAIN_CAP ==> page@.len() >= CHAIN_HEADER + old(self).pos.used + take_of(old(self).pos, *meta),
        ensures
            final(self).pos == next_pos(old(self).pos, *meta, page@),
            final(self).out@ == old(self).out@ + read_at(old(self).pos, *meta, page@),
    {
        if self.pos.used as usize == CHAIN_CAP {
            self.pos = PendingPos { block: next_block(page), used: 0, total: self.pos.total };
            proof {
                assert(self.out@ + Seq::<u8>::empty() =~= self.out@);
            }
            return;
        }
        let room: u64 = CHAIN_CAP as u64 - self.pos.used as u64;
        let left: u64 = meta.pending_bytes - self.pos.total;
        let take: u64 = if room < left {
            room
        } else {
            left
        };
        let from: usize = CHAIN_HEADER + self.pos.used as usize;
        put_bytes(&mut self.out, vstd::slice::slice_subrange(page, from, from + take as usize));
        self.pos = PendingPos { block: self.pos.block, used: self.pos.used + take as u32, total: self.pos.total + take };
    }
}

/// How much of the page is read at once.
pub open spec fn take_of(pos: PendingPos, meta: Meta) -> int {
    if CHAIN_CAP - pos.used < meta.pending_bytes - pos.total {
        CHAIN_CAP - pos.used
    } else {
        meta.pending_bytes - pos.total
    }
}

/// Where a reader stands after a page.
pub open spec fn next_pos(pos: PendingPos, meta: Meta, page: Seq<u8>) -> PendingPos {
    if pos.used == CHAIN_CAP {
        PendingPos { block: next_of(page), used: 0, total: pos.total }
    } else {
        PendingPos { block: pos.block, used: (pos.used + take_of(pos, meta)) as u32, total: (pos.total + take_of(pos, meta)) as u64 }
    }
}

/// What a reader reads of a page.
pub open spec fn read_at(pos: PendingPos, meta: Meta, page: Seq<u8>) -> Seq<u8> {
    if pos.used == CHAIN_CAP {
        Seq::empty()
    } else {
        page.subrange(CHAIN_HEADER + pos.used, CHAIN_HEADER + pos.used + take_of(pos, meta))
    }
}

/// The page after `block` in the pending list, if there is one: the one its
/// page links to, unless it is the tail.
pub fn pending_after(meta: &Meta, block: u32, page: &[u8]) -> (r: Option<u32>)
    requires
        page@.len() >= CHAIN_HEADER,
    ensures
        r == if block == meta.pending_tail || next_of(page@) == INVALID_BLOCK { None } else { Some(next_of(page@)) },
{
    if block == meta.pending_tail {
        return None;
    }
    let next: u32 = next_block(page);
    if next == INVALID_BLOCK {
        None
    } else {
        Some(next)
    }
}

// ---------------------------------------------------------------------------
// Rewriting
// ---------------------------------------------------------------------------

/// Point `meta` at a fresh pending chain on `blocks` holding `stream`
/// (`count` records), or at none: returns the pages to write there. The
/// caller then writes `meta` and frees the old chain.
pub fn rewrite_pending(meta: &mut Meta, stream: &[u8], count: u64, blocks: &[u32]) -> (r: Vec<Vec<u8>>)
    requires
        blocks@.len() == pages_for(stream@.len() as int),
    ensures
        r@.len() == blocks@.len(),
        forall|i: int| 0 <= i < r@.len() ==> (#[trigger] r@[i])@ == blob_page(stream@, blocks@, i),
        final(meta).generation == old(meta).generation,
        final(meta).next_segment_id == old(meta).next_segment_id,
        final(meta).segments@ == old(meta).segments@,
        final(meta).retired@ == old(meta).retired@,
        final(meta).pending_bytes == stream@.len(),
        final(meta).pending_count == if stream@.len() == 0 { 0 } else { count },
        blocks@.len() == 0 ==> {
            &&& final(meta).pending_head == INVALID_BLOCK
            &&& final(meta).pending_tail == INVALID_BLOCK
            &&& final(meta).pending_tail_used == 0
        },
        blocks@.len() > 0 ==> {
            &&& final(meta).pending_head == blocks@[0]
            &&& final(meta).pending_tail == blocks@.last()
            &&& final(meta).pending_tail_used == stream@.len() - (blocks@.len() - 1) * CHAIN_CAP
        },
{
    let n: usize = blocks.len();
    let len: usize = stream.len();
    let pages: Vec<Vec<u8>> = blob_pages(stream, blocks);
    if n == 0 {
        meta.pending_head = INVALID_BLOCK;
        meta.pending_tail = INVALID_BLOCK;
        meta.pending_tail_used = 0;
    } else {
        meta.pending_head = blocks[0];
        meta.pending_tail = blocks[n - 1];
        meta.pending_tail_used = (len - (n - 1) * CHAIN_CAP) as u32;
    }
    meta.pending_bytes = len as u64;
    meta.pending_count = if len == 0 {
        0
    } else {
        count
    };
    pages
}

// ---------------------------------------------------------------------------
// Laws
// ---------------------------------------------------------------------------

proof fn lemma_writes_first(pages: PagesView, w: WriteView, ws: Seq<WriteView>)
    ensures
        after_writes(pages, seq![w] + ws) == after_writes(after_write(pages, w), ws),
    decreases ws.len(),
{
    let all = seq![w] + ws;
    if ws.len() == 0 {
        assert(all.drop_last() =~= Seq::empty());
        assert(all.last() == w);
        assert(after_writes(pages, all.drop_last()) == pages);
    } else {
        lemma_writes_first(pages, w, ws.drop_last());
        assert(all.drop_last() =~= seq![w] + ws.drop_last());
    }
}

/// Parts that lie on untouched pages stay.
proof fn lemma_parts_same(p: PagesView, q: PagesView, a: Seq<u32>, b: Seq<u32>, ua: int, ub: int, n: int)
    requires
        0 <= n <= a.len(),
        n <= b.len(),
        forall|i: int| 0 <= i < n ==> part_of(p, a, ua, i) == #[trigger] part_of(q, b, ub, i),
    ensures
        parts(p, a, ua, n) == parts(q, b, ub, n),
    decreases n,
{
    if n > 0 {
        lemma_parts_same(p, q, a, b, ua, ub, n - 1);
        assert(part_of(p, a, ua, n - 1) == part_of(q, b, ub, n - 1));
    }
}

proof fn lemma_put(pages: PagesView, blocks: Seq<u32>, used: int, bytes: Seq<u8>)
    requires
        blocks.len() > 0,
        linked(pages, blocks, used),
        used + bytes.len() <= CHAIN_CAP,
    ensures
        linked(after_write(pages, WriteView::Put(blocks.last(), CHAIN_HEADER + used, bytes)), blocks, (used + bytes.len()) as int),
        parts(
            after_write(pages, WriteView::Put(blocks.last(), CHAIN_HEADER + used, bytes)),
            blocks,
            (used + bytes.len()) as int,
            blocks.len() as int,
        ) == parts(pages, blocks, used, blocks.len() as int) + bytes,
{
    let n = blocks.len() as int;
    let tail = blocks.last();
    let q = after_write(pages, WriteView::Put(tail, CHAIN_HEADER + used, bytes));
    let used2 = (used + bytes.len()) as int;
    let (old_page, new_page) = (pages[tail], q[tail]);
    assert(new_page == written_over(old_page, CHAIN_HEADER + used, bytes));
    assert(blocks[n - 1] == tail);
    assert(data_of(old_page).len() >= used && old_page.len() >= CHAIN_HEADER);
    assert(old_page.len() >= CHAIN_HEADER + used);
    assert(data_of(new_page).take(used2) =~= data_of(old_page).take(used) + bytes);
    assert(data_of(new_page).len() >= used2);
    assert forall|i: int| 0 <= i < n - 1 implies q[#[trigger] blocks[i]] == pages[blocks[i]] by {
        assert(blocks[i] != blocks[n - 1]);
    }
    assert forall|i: int| 0 <= i < n - 1 implies part_of(pages, blocks, used, i) == #[trigger] part_of(q, blocks, used2, i) by {
        assert(q[blocks[i]] == pages[blocks[i]]);
    }
    lemma_parts_same(pages, q, blocks, blocks, used, used2, n - 1);
    assert(part_of(q, blocks, used2, n - 1) =~= part_of(pages, blocks, used, n - 1) + bytes);
    let before = parts(pages, blocks, used, n - 1);
    assert(before + (part_of(pages, blocks, used, n - 1) + bytes) =~= (before + part_of(pages, blocks, used, n - 1)) + bytes);
    assert forall|i: int| 0 <= i < n implies CHAIN_HEADER <= q[#[trigger] blocks[i]].len() && data_of(q[blocks[i]]).len() >= (if i + 1 < n {
        CHAIN_CAP as int
    } else {
        used2
    }) by {
        if i < n - 1 {
            assert(q[blocks[i]] == pages[blocks[i]]);
        }
    }
}

proof fn lemma_link(pages: PagesView, blocks: Seq<u32>, f: u32)
    requires
        blocks.len() > 0,
        linked(pages, blocks, CHAIN_CAP as int),
        !blocks.contains(f),
        f != INVALID_BLOCK,
    ensures
        linked(after_write(pages, WriteView::Link(blocks.last(), f)), blocks.push(f), 0),
        parts(after_write(pages, WriteView::Link(blocks.last(), f)), blocks.push(f), 0, blocks.len() as int + 1) == parts(
            pages,
            blocks,
            CHAIN_CAP as int,
            blocks.len() as int,
        ),
{
    let n = blocks.len() as int;
    let tail = blocks.last();
    let q = after_write(pages, WriteView::Link(tail, f));
    let b2 = blocks.push(f);
    assert(blocks[n - 1] == tail);
    assert(tail != f);
    let (old_page, new_page) = (pages[tail], q[tail]);
    lemma_le_seq_len(f as nat, 4);
    lemma_le_limits();
    assert(new_page == written_over(old_page, 0, le_seq(f as nat, 4)));
    assert(embeds(le_seq(f as nat, 4), new_page, 0));
    lemma_le_at(new_page, 0, f as nat, 4);
    assert(next_of(new_page) == f);
    assert(data_of(new_page) =~= data_of(old_page));
    lemma_header(INVALID_BLOCK, 0, Seq::empty());
    assert(header_bytes(INVALID_BLOCK, 0) + Seq::<u8>::empty() =~= header_bytes(INVALID_BLOCK, 0));
    assert(q[f] == header_bytes(INVALID_BLOCK, 0));
    assert forall|i: int| 0 <= i < n implies data_of(q[#[trigger] blocks[i]]) == data_of(pages[blocks[i]]) && q[blocks[i]].len() == pages[blocks[i]].len() by {
        assert(blocks.contains(blocks[i]));
        if i < n - 1 {
            assert(blocks[i] != blocks[n - 1]);
        }
    }
    assert forall|i: int| 0 <= i < n implies part_of(pages, blocks, CHAIN_CAP as int, i) == #[trigger] part_of(q, b2, 0, i) by {
        assert(b2[i] == blocks[i]);
        assert(data_of(q[blocks[i]]) == data_of(pages[blocks[i]]));
    }
    lemma_parts_same(pages, q, blocks, b2, CHAIN_CAP as int, 0, n);
    assert(b2[n] == f);
    assert(part_of(q, b2, 0, n) =~= Seq::empty());
    assert(parts(q, b2, 0, n) + Seq::<u8>::empty() =~= parts(q, b2, 0, n));
    assert(b2.no_duplicates()) by {
        assert forall|i: int, j: int| 0 <= i < b2.len() && 0 <= j < b2.len() && i != j implies b2[i] != b2[j] by {
            if i < n && j == n {
                assert(blocks.contains(blocks[i]));
            }
            if j < n && i == n {
                assert(blocks.contains(blocks[j]));
            }
        }
    }
    assert forall|i: int| 0 <= i < b2.len() implies CHAIN_HEADER <= q[#[trigger] b2[i]].len() && data_of(q[b2[i]]).len() >= (if i + 1 < b2.len() {
        CHAIN_CAP as int
    } else {
        0
    }) by {
        if i < n {
            assert(b2[i] == blocks[i]);
            assert(data_of(q[blocks[i]]) == data_of(pages[blocks[i]]));
        }
    }
    assert forall|i: int| 0 <= i < b2.len() - 1 implies next_of(q[#[trigger] b2[i]]) == b2[i + 1] by {
        assert(b2[i] == blocks[i]);
        if i < n - 1 {
            assert(blocks[i] != blocks[n - 1]);
            assert(blocks.contains(blocks[i]));
            assert(q[blocks[i]] == pages[blocks[i]]);
            assert(b2[i + 1] == blocks[i + 1]);
        }
    }
    assert forall|i: int| 0 <= i < b2.len() implies #[trigger] b2[i] != INVALID_BLOCK by {
        if i < n {
            assert(b2[i] == blocks[i]);
        }
    }
}

/// Pages that can be added to a list.
pub open spec fn addable(blocks: Seq<u32>, fresh: Seq<u32>) -> bool {
    &&& (blocks + fresh).no_duplicates()
    &&& forall|i: int| 0 <= i < fresh.len() ==> #[trigger] fresh[i] != INVALID_BLOCK
}

proof fn lemma_append(pages: PagesView, blocks: Seq<u32>, used: int, rest: Seq<u8>, fresh: Seq<u32>)
    requires
        blocks.len() > 0,
        linked(pages, blocks, used),
        addable(blocks, fresh),
        fresh.len() == links(used, rest.len() as int),
    ensures
        linked(
            after_writes(pages, append_steps(blocks.last(), used, rest, fresh)),
            blocks + fresh,
            append_end(blocks.last(), used, rest.len() as int, fresh).1,
        ),
        parts(
            after_writes(pages, append_steps(blocks.last(), used, rest, fresh)),
            blocks + fresh,
            append_end(blocks.last(), used, rest.len() as int, fresh).1,
            (blocks + fresh).len() as int,
        ) == parts(pages, blocks, used, blocks.len() as int) + rest,
        append_end(blocks.last(), used, rest.len() as int, fresh).0 == (blocks + fresh).last(),
        blocks.len() * CHAIN_CAP - CHAIN_CAP + used + rest.len() == (blocks + fresh).len() * CHAIN_CAP - CHAIN_CAP + append_end(
            blocks.last(),
            used,
            rest.len() as int,
            fresh,
        ).1,
    decreases rest.len(), (if used == CHAIN_CAP { 1int } else { 0int }),
{
    let tail = blocks.last();
    if used == CHAIN_CAP {
        lemma_links(0, rest.len() as int);
        let f = fresh[0];
        assert((blocks + fresh)[blocks.len() as int] == f);
        assert(!blocks.contains(f)) by {
            if blocks.contains(f) {
                let k = blocks.index_of(f);
                assert((blocks + fresh)[k] == f);
            }
        }
        lemma_link(pages, blocks, f);
        let q = after_write(pages, WriteView::Link(tail, f));
        assert(blocks.push(f) + fresh.skip(1) =~= blocks + fresh);
        assert forall|i: int| 0 <= i < fresh.skip(1).len() implies #[trigger] fresh.skip(1)[i] != INVALID_BLOCK by {
            assert(fresh.skip(1)[i] == fresh[i + 1]);
        }
        lemma_append(q, blocks.push(f), 0, rest, fresh.skip(1));
        lemma_writes_first(pages, WriteView::Link(tail, f), append_steps(f, 0, rest, fresh.skip(1)));
    } else if rest.len() <= CHAIN_CAP - used {
        lemma_put(pages, blocks, used, rest);
        assert(fresh =~= Seq::empty());
        assert(blocks + fresh =~= blocks);
        let w = WriteView::Put(tail, CHAIN_HEADER + used, rest);
        lemma_writes_first(pages, w, Seq::empty());
        assert(seq![w] + Seq::<WriteView>::empty() =~= seq![w]);
    } else {
        let take = CHAIN_CAP - used;
        let w = WriteView::Put(tail, CHAIN_HEADER + used, rest.take(take));
        lemma_put(pages, blocks, used, rest.take(take));
        let q = after_write(pages, w);
        lemma_append(q, blocks, CHAIN_CAP as int, rest.skip(take), fresh);
        lemma_writes_first(pages, w, append_steps(tail, CHAIN_CAP as int, rest.skip(take), fresh));
        let s = parts(pages, blocks, used, blocks.len() as int);
        assert(s + rest.take(take) + rest.skip(take) =~= s + rest);
    }
}

/// Appending a record extends the stream by it and by nothing else.
pub proof fn append_extends_stream(pages: PagesView, meta: Meta, after: Meta, blocks: Seq<u32>, stream: Seq<u8>, record: Seq<u8>, fresh: Seq<u32>)
    requires
        backlog_is(pages, meta, blocks, stream),
        addable(blocks, fresh),
        fresh.len() == pages_needed(meta, record.len() as int),
        after.pending_bytes == meta.pending_bytes + record.len(),
        meta.pending_head == INVALID_BLOCK ==> after.pending_head == fresh[0] && (after.pending_tail, after.pending_tail_used as int) == append_end(
            fresh[0],
            0,
            record.len() as int,
            fresh.skip(1),
        ),
        meta.pending_head != INVALID_BLOCK ==> after.pending_head == meta.pending_head && (after.pending_tail, after.pending_tail_used as int)
            == append_end(meta.pending_tail, meta.pending_tail_used as int, record.len() as int, fresh),
    ensures
        backlog_is(after_writes(pages, append_writes(meta, record, fresh)), after, blocks + fresh, stream + record),
{
    if meta.pending_head == INVALID_BLOCK {
        if blocks.len() > 0 {
            assert(blocks[0] != INVALID_BLOCK);
        }
        lemma_links(0, record.len() as int);
        let f = fresh[0];
        let q = after_write(pages, WriteView::Fresh(f));
        let one = seq![f];
        lemma_header(INVALID_BLOCK, 0, Seq::empty());
        assert(header_bytes(INVALID_BLOCK, 0) + Seq::<u8>::empty() =~= header_bytes(INVALID_BLOCK, 0));
        assert(q[one[0]] == header_bytes(INVALID_BLOCK, 0));
        assert(linked(q, one, 0));
        assert(blocks + fresh =~= fresh);
        assert(one + fresh.skip(1) =~= fresh);
        assert forall|i: int| 0 <= i < fresh.skip(1).len() implies #[trigger] fresh.skip(1)[i] != INVALID_BLOCK by {
            assert(fresh.skip(1)[i] == fresh[i + 1]);
        }
        lemma_append(q, one, 0, record, fresh.skip(1));
        lemma_writes_first(pages, WriteView::Fresh(f), append_steps(f, 0, record, fresh.skip(1)));
        assert(part_of(q, one, 0, 0) =~= Seq::empty());
        reveal_with_fuel(parts, 2);
        assert(parts(q, one, 0, 1) =~= Seq::empty());
        assert(Seq::<u8>::empty() + record =~= record);
        assert(stream + record =~= record);
        lemma_parts_len(after_writes(pages, append_writes(meta, record, fresh)), fresh, after.pending_tail_used as int);
    } else {
        lemma_append(pages, blocks, meta.pending_tail_used as int, record, fresh);
        lemma_parts_len(after_writes(pages, append_writes(meta, record, fresh)), blocks + fresh, after.pending_tail_used as int);
        assert((blocks + fresh)[0] == blocks[0]);
    }
}

proof fn lemma_parts_len(pages: PagesView, blocks: Seq<u32>, used: int)
    requires
        blocks.len() > 0,
        linked(pages, blocks, used),
    ensures
        parts(pages, blocks, used, blocks.len() as int).len() == (blocks.len() - 1) * CHAIN_CAP + used,
{
    lemma_parts_prefix(pages, blocks, used, blocks.len() - 1);
    let n = blocks.len() as int;
    assert(data_of(pages[blocks[n - 1]]).len() >= used);
}

proof fn lemma_parts_prefix(pages: PagesView, blocks: Seq<u32>, used: int, n: int)
    requires
        0 <= n < blocks.len(),
        linked(pages, blocks, used),
    ensures
        parts(pages, blocks, used, n).len() == n * CHAIN_CAP,
    decreases n,
{
    if n > 0 {
        lemma_parts_prefix(pages, blocks, used, n - 1);
        assert(data_of(pages[blocks[n - 1]]).len() >= CHAIN_CAP);
    }
}

/// Part `i` of the stream is where it should be.
proof fn lemma_part_at(pages: PagesView, blocks: Seq<u32>, used: int, n: int, i: int)
    requires
        0 <= i < n <= blocks.len(),
        linked(pages, blocks, used),
    ensures
        embeds(part_of(pages, blocks, used, i), parts(pages, blocks, used, n), i * CHAIN_CAP),
    decreases n,
{
    lemma_parts_prefix(pages, blocks, used, n - 1);
    if i < n - 1 {
        lemma_part_at(pages, blocks, used, n - 1, i);
    }
}

/// A reader on the list moves forward along the stream with every page it is
/// handed: what it has read stays the stream from where it began.
pub proof fn reading_follows_stream(
    reader: BacklogReader,
    after: BacklogReader,
    pages: PagesView,
    meta: Meta,
    blocks: Seq<u32>,
    stream: Seq<u8>,
    from: int,
)
    requires
        backlog_is(pages, meta, blocks, stream),
        reader.on(pages, meta, blocks, stream, from),
        reader.pos.total < meta.pending_bytes,
        after.pos == next_pos(reader.pos, meta, pages[reader.pos.block]),
        after.out@ == reader.out@ + read_at(reader.pos, meta, pages[reader.pos.block]),
    ensures
        after.on(pages, meta, blocks, stream, from),
        pages[reader.pos.block].len() >= CHAIN_HEADER,
        reader.pos.used < CHAIN_CAP ==> pages[reader.pos.block].len() >= CHAIN_HEADER + reader.pos.used + take_of(reader.pos, meta),
        after.pos.total > reader.pos.total || (after.pos.total == reader.pos.total && reader.pos.used == CHAIN_CAP && after.pos.used == 0),
{
    let pos = reader.pos;
    let used = meta.pending_tail_used as int;
    let k = choose|k: int| 0 <= k < blocks.len() && pos.block == #[trigger] blocks[k] && pos.total == k * CHAIN_CAP + pos.used;
    let n = blocks.len() as int;
    assert(CHAIN_HEADER <= pages[blocks[k]].len());
    if pos.used == CHAIN_CAP {
        assert(k + 1 < n) by {
            if k + 1 >= n {
                assert(pos.total >= (n - 1) * CHAIN_CAP + CHAIN_CAP) by (nonlinear_arith)
                    requires
                        k >= n - 1,
                        pos.total == k * CHAIN_CAP + CHAIN_CAP,
                ;
            }
        }
        assert(next_of(pages[blocks[k]]) == blocks[k + 1]);
        assert((k + 1) * CHAIN_CAP == k * CHAIN_CAP + CHAIN_CAP) by (nonlinear_arith);
        assert(after.pos.block == blocks[k + 1] && after.pos.total == (k + 1) * CHAIN_CAP + after.pos.used);
        assert(after.out@ =~= reader.out@);
    } else {
        let take = take_of(pos, meta);
        let page = pages[blocks[k]];
        let part = part_of(pages, blocks, used, k);
        lemma_part_at(pages, blocks, used, n, k);
        if k + 1 == n {
            assert(data_of(page).len() >= used);
            assert(pos.used + take <= used);
        } else {
            assert(data_of(page).len() >= CHAIN_CAP);
        }
        assert(pos.used + take <= part.len());
        assert(after.pos.block == blocks[k] && after.pos.total == k * CHAIN_CAP + after.pos.used);
        assert(after.out@ =~= stream.subrange(from, after.pos.total as int)) by {
            let more = read_at(pos, meta, page);
            assert forall|i: int| 0 <= i < more.len() implies #[trigger] more[i] == stream[pos.total + i] by {
                assert(more[i] == part[pos.used + i]);
                assert(part[pos.used + i] == stream[k * CHAIN_CAP + (pos.used + i)]);
            }
        }
    }
}

/// A rewritten pending list holds exactly the new stream.
pub proof fn rewrite_holds_stream(pages: PagesView, meta: Meta, stream: Seq<u8>, blocks: Seq<u32>)
    requires
        blocks.len() == pages_for(stream.len() as int),
        blocks.no_duplicates(),
        forall|i: int| 0 <= i < blocks.len() ==> #[trigger] blocks[i] != INVALID_BLOCK,
        holds_blob(pages, stream, blocks),
        meta.pending_bytes == stream.len(),
        blocks.len() == 0 ==> meta.pending_head == INVALID_BLOCK,
        blocks.len() > 0 ==> meta.pending_head == blocks[0] && meta.pending_tail == blocks.last() && meta.pending_tail_used == stream.len() - (
        blocks.len() - 1) * CHAIN_CAP,
    ensures
        backlog_is(pages, meta, blocks, stream),
{
    if blocks.len() > 0 {
        let used = meta.pending_tail_used as int;
        let n = blocks.len() as int;
        assert forall|i: int| 0 <= i < n implies data_of(pages[#[trigger] blocks[i]]) == chunk(stream, i) && next_of(pages[blocks[i]]) == link(
            blocks,
            i,
        ) && pages[blocks[i]].len() >= CHAIN_HEADER by {
            lemma_header(link(blocks, i), 0, chunk(stream, i));
        }
        assert forall|i: int| 0 <= i < n implies CHAIN_HEADER <= pages[#[trigger] blocks[i]].len() && data_of(pages[blocks[i]]).len() >= (if i + 1 < n {
            CHAIN_CAP as int
        } else {
            used
        }) by {
            assert(data_of(pages[blocks[i]]) == chunk(stream, i));
        }
        assert(linked(pages, blocks, used));
        lemma_rewrite_parts(pages, stream, blocks, used, n);
        assert(stream.take(stream.len() as int) =~= stream);
    } else {
        assert(stream.len() == 0);
    }
}

proof fn lemma_rewrite_parts(pages: PagesView, stream: Seq<u8>, blocks: Seq<u32>, used: int, n: int)
    requires
        0 <= n <= blocks.len(),
        blocks.len() == pages_for(stream.len() as int),
        used == stream.len() - (blocks.len() - 1) * CHAIN_CAP,
        forall|i: int| 0 <= i < blocks.len() ==> data_of(pages[#[trigger] blocks[i]]) == chunk(stream, i),
    ensures
        parts(pages, blocks, used, n) == stream.take(if n * CHAIN_CAP < stream.len() { n * CHAIN_CAP } else { stream.len() as int }),
    decreases n,
{
    if n > 0 {
        lemma_rewrite_parts(pages, stream, blocks, used, n - 1);
        assert(data_of(pages[blocks[n - 1]]) == chunk(stream, n - 1));
        assert(part_of(pages, blocks, used, n - 1) =~= chunk(stream, n - 1));
        assert(parts(pages, blocks, used, n) =~= stream.take(if n * CHAIN_CAP < stream.len() { n * CHAIN_CAP } else { stream.len() as int }));
    } else {
        assert(stream.take(0) =~= Seq::empty());
    }
}

/// As many pages are added as the bytes need that the last page has no room
/// for: one fewer would not hold them.
pub proof fn pages_are_added_as_needed(used: int, len: int)
    requires
        0 <= used <= CHAIN_CAP,
        0 < len,
    ensures
        links(used, len) >= 0,
        used + len <= (links(used, len) + 1) * CHAIN_CAP,
        links(used, len) > 0 ==> used + len > links(used, len) * CHAIN_CAP,
    decreases len, (if used == CHAIN_CAP { 1int } else { 0int }),
{
    if used == CHAIN_CAP {
        pages_are_added_as_needed(0, len);
        let k = links(0, len);
        assert((k + 2) * CHAIN_CAP == (k + 1) * CHAIN_CAP + CHAIN_CAP) by (nonlinear_arith);
        assert((k + 1) * CHAIN_CAP == k * CHAIN_CAP + CHAIN_CAP) by (nonlinear_arith);
    } else if len > CHAIN_CAP - used {
        let rest = len - (CHAIN_CAP - used);
        pages_are_added_as_needed(CHAIN_CAP as int, rest);
    }
}

} // verus!
