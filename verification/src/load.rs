//! Building an index from a heap scan: the rows of a page in order, how many
//! threads take part, and what becomes of the segments that are closed on the
//! way: held, to be merged into one at the end, while they fit the memory
//! budget, and written out when they no longer do.

use vstd::prelude::*;
use crate::merge::{all_grams, is_merge, kept_tuples, live_doc, mergeable, on_heap, Input};
use crate::segment::{size_limit, Segment, SegmentBuilder};
use crate::tid::Tid;

verus! {

/// Memory that a parallel build needs per thread (the leader's included).
pub const MIN_PARTICIPANT_BUDGET: u64 = 33554432;

/// How many threads help a build with `budget` bytes: at most `max`, one for
/// each of `cpus`, and each with enough memory beside the leader.
pub fn worker_count(max: i32, cpus: u64, budget: u64) -> (r: u64)
    ensures
        ({
            let allowed = if max < 0 { 0int } else { max as int };
            let fed = budget as int / MIN_PARTICIPANT_BUDGET as int - 1;
            let room = if fed < 0 { 0int } else { fed };
            &&& r <= allowed
            &&& r <= cpus
            &&& r <= room
            &&& r == allowed || r == cpus || r == room
        }),
        r > 0 ==> (r + 1) * 33554432 <= budget,
        r < max && r < cpus ==> (r + 2) * 33554432 > budget,
{
    let allowed: u64 = if max < 0 {
        0
    } else {
        max as u64
    };
    let shares: u64 = budget / MIN_PARTICIPANT_BUDGET;
    let room: u64 = if shares == 0 {
        0
    } else {
        shares - 1
    };
    let some: u64 = if allowed < cpus {
        allowed
    } else {
        cpus
    };
    if some < room {
        some
    } else {
        room
    }
}

/// The row of page `block` at line pointer `off`.
pub open spec fn is_row(r: (Tid, String), block: u32, row: (u16, String)) -> bool {
    r.0.block == block && r.0.offset == row.0 && r.1@ == row.1@
}

/// Some row from `lo` on is the document `r`.
pub open spec fn from_row(r: (Tid, String), block: u32, rows: Seq<(u16, String)>, lo: int) -> bool {
    exists|i: int| lo <= i < rows.len() && is_row(r, block, #[trigger] rows[i])
}

/// Some document is the row.
pub open spec fn row_told(out: Seq<(Tid, String)>, block: u32, row: (u16, String)) -> bool {
    exists|k: int| 0 <= k < out.len() && is_row(#[trigger] out[k], block, row)
}

/// `out` are the rows from `lo` on as documents, in order.
pub open spec fn in_order(out: Seq<(Tid, String)>, block: u32, rows: Seq<(u16, String)>, lo: int) -> bool {
    &&& out.len() == rows.len() - lo
    &&& forall|k: int| 0 <= k < out.len() ==> from_row(#[trigger] out[k], block, rows, lo)
    &&& forall|i: int| lo <= i < rows.len() ==> row_told(out, block, #[trigger] rows[i])
    &&& forall|j: int, k: int| 0 <= j < k < out.len() ==> (#[trigger] out[j]).0.before((#[trigger] out[k]).0)
}

/// Line pointers of a page, each once.
pub open spec fn rows_ok(rows: Seq<(u16, String)>) -> bool {
    &&& forall|i: int| 0 <= i < rows.len() ==> 1 <= (#[trigger] rows[i]).0 <= crate::tid::MAX_OFFSET
    &&& forall|i: int, j: int| 0 <= i < j < rows.len() ==> (#[trigger] rows[i]).0 != (#[trigger] rows[j]).0
}

/// Where entry `k` of a list with one more at `p` stood before.
spec fn stood(k: int, p: int) -> int {
    if k < p {
        k
    } else {
        k - 1
    }
}

proof fn lemma_insert_from(was: Seq<(Tid, String)>, block: u32, rows: Seq<(u16, String)>, n: int, p: int, e: (Tid, String), k: int)
    requires
        0 <= n < rows.len(),
        forall|o: int| 0 <= o < was.len() ==> from_row(#[trigger] was[o], block, rows, n + 1),
        is_row(e, block, rows[n]),
        0 <= p <= was.len(),
        0 <= k <= was.len(),
    ensures
        from_row(was.insert(p, e)[k], block, rows, n),
{
    let out = was.insert(p, e);
    if k == p {
        assert(is_row(out[k], block, rows[n]));
    } else {
        let o = stood(k, p);
        assert(out[k] == was[o]);
        assert(from_row(was[o], block, rows, n + 1));
        let i = choose|i: int| n + 1 <= i < rows.len() && is_row(was[o], block, #[trigger] rows[i]);
        assert(is_row(out[k], block, rows[i]));
    }
}

proof fn lemma_insert_told(was: Seq<(Tid, String)>, block: u32, row: (u16, String), p: int, e: (Tid, String))
    requires
        row_told(was, block, row) || is_row(e, block, row),
        0 <= p <= was.len(),
    ensures
        row_told(was.insert(p, e), block, row),
{
    let out = was.insert(p, e);
    if row_told(was, block, row) {
        let o = choose|o: int| 0 <= o < was.len() && is_row(#[trigger] was[o], block, row);
        let k = if o < p { o } else { o + 1 };
        assert(out[k] == was[o]);
    } else {
        assert(is_row(out[p], block, row));
    }
}

proof fn lemma_insert_order(was: Seq<(Tid, String)>, p: int, e: (Tid, String), j: int, k: int)
    requires
        forall|a: int, b: int| 0 <= a < b < was.len() ==> (#[trigger] was[a]).0.before((#[trigger] was[b]).0),
        forall|a: int| 0 <= a < was.len() ==> (#[trigger] was[a]).0.offset != e.0.offset && was[a].0.block == e.0.block,
        0 <= p <= was.len(),
        forall|a: int| 0 <= a < p ==> (#[trigger] was[a]).0.offset < e.0.offset,
        p < was.len() ==> was[p].0.offset >= e.0.offset,
        0 <= j < k <= was.len(),
    ensures
        was.insert(p, e)[j].0.before(was.insert(p, e)[k].0),
{
    let out = was.insert(p, e);
    let (a, b) = (stood(j, p), stood(k, p));
    if j == p {
        assert(out[k] == was[b]);
        if b > p {
            assert(was[p].0.before(was[b].0));
        }
    } else if k == p {
        assert(out[j] == was[a]);
    } else {
        assert(out[j] == was[a] && out[k] == was[b]);
        assert(was[a].0.before(was[b].0));
    }
}

/// One row more in its place.
proof fn lemma_insert(was: Seq<(Tid, String)>, block: u32, rows: Seq<(u16, String)>, n: int, p: int, e: (Tid, String))
    requires
        rows_ok(rows),
        0 <= n < rows.len(),
        in_order(was, block, rows, n + 1),
        is_row(e, block, rows[n]),
        0 <= p <= was.len(),
        forall|k: int| 0 <= k < p ==> (#[trigger] was[k]).0.offset < e.0.offset,
        p < was.len() ==> was[p].0.offset >= e.0.offset,
    ensures
        in_order(was.insert(p, e), block, rows, n),
{
    let out = was.insert(p, e);
    assert forall|k: int| 0 <= k < was.len() implies (#[trigger] was[k]).0.offset != e.0.offset && was[k].0.block == e.0.block by {
        assert(from_row(was[k], block, rows, n + 1));
        let i = choose|i: int| n + 1 <= i < rows.len() && is_row(was[k], block, #[trigger] rows[i]);
        assert(rows[n].0 != rows[i].0);
    }
    assert forall|k: int| 0 <= k < out.len() implies from_row(#[trigger] out[k], block, rows, n) by {
        lemma_insert_from(was, block, rows, n, p, e, k);
    }
    assert forall|i: int| n <= i < rows.len() implies row_told(out, block, #[trigger] rows[i]) by {
        lemma_insert_told(was, block, rows[i], p, e);
    }
    lemma_insert_ordered(was, p, e);
}

proof fn lemma_insert_ordered(was: Seq<(Tid, String)>, p: int, e: (Tid, String))
    requires
        forall|a: int, b: int| 0 <= a < b < was.len() ==> (#[trigger] was[a]).0.before((#[trigger] was[b]).0),
        forall|a: int| 0 <= a < was.len() ==> (#[trigger] was[a]).0.offset != e.0.offset && was[a].0.block == e.0.block,
        0 <= p <= was.len(),
        forall|a: int| 0 <= a < p ==> (#[trigger] was[a]).0.offset < e.0.offset,
        p < was.len() ==> was[p].0.offset >= e.0.offset,
    ensures
        forall|j: int, k: int| 0 <= j < k <= was.len() ==> (#[trigger] was.insert(p, e)[j]).0.before((#[trigger] was.insert(p, e)[k]).0),
{
    let out = was.insert(p, e);
    assert forall|j: int, k: int| 0 <= j < k <= was.len() implies (#[trigger] out[j]).0.before((#[trigger] out[k]).0) by {
        lemma_insert_order(was, p, e, j, k);
    }
}

/// The rows of one heap page as documents, in line pointer order.
pub fn page_rows(block: u32, rows: Vec<(u16, String)>) -> (r: Vec<(Tid, String)>)
    requires
        rows_ok(rows@),
    ensures
        in_order(r@, block, rows@, 0),
        forall|k: int| 0 <= k < r@.len() ==> (#[trigger] r@[k]).0.valid(),
{
    let ghost all = rows@;
    let mut rest: Vec<(u16, String)> = rows;
    let mut out: Vec<(Tid, String)> = Vec::new();
    while rest.len() > 0
        invariant
            rest@.len() <= all.len(),
            rest@ == all.take(rest@.len() as int),
            rows_ok(all),
            in_order(out@, block, all, rest@.len() as int),
        decreases rest@.len(),
    {
        let ghost n = rest@.len() - 1;
        let ghost was = out@;
        let (off, text): (u16, String) = match rest.pop() {
            Some(row) => row,
            None => vstd::pervasive::unreached(),
        };
        proof {
            assert(all.take(n + 1).drop_last() =~= all.take(n));
            assert(all[n] == (off, text));
        }
        let mut p: usize = 0;
        while p < out.len() && out[p].0.offset < off
            invariant
                out@ == was,
                p <= was.len(),
                forall|k: int| 0 <= k < p ==> (#[trigger] was[k]).0.offset < off,
            decreases was.len() - p,
        {
            p = p + 1;
        }
        let e: (Tid, String) = (Tid::new(block, off), text);
        proof {
            lemma_insert(was, block, all, n, p as int, e);
        }
        out.insert(p, e);
    }
    proof {
        assert forall|k: int| 0 <= k < out@.len() implies (#[trigger] out@[k]).0.valid() by {
            assert(from_row(out@[k], block, all, 0));
            let i = choose|i: int| 0 <= i < all.len() && is_row(out@[k], block, #[trigger] all[i]);
            assert(1 <= all[i].0 <= crate::tid::MAX_OFFSET);
        }
    }
    out
}

// ---------------------------------------------------------------------------
// Closed segments
// ---------------------------------------------------------------------------

/// Segments as what a merge takes, every tuple live.
pub open spec fn inputs_of(segs: Seq<Segment>) -> Seq<Input<'static>> {
    Seq::new(segs.len(), |i: int| (&segs[i], None))
}

/// The bytes of a segment.
pub open spec fn bytes_of(s: Segment) -> int {
    (s.table().len() + s.area().len() + s.dir().widths.len() * 2) as int
}

/// Segments that may be merged.
pub open spec fn may_merge(segs: Seq<Segment>) -> bool {
    &&& forall|i: int| 0 <= i < segs.len() ==> (#[trigger] segs[i]).wf()
    &&& on_heap(inputs_of(segs))
    &&& mergeable(inputs_of(segs))
    &&& u32::MAX * 512 + 0x1_0000 <= usize::MAX
}

/// What is written of held segments at the end: one as it is, several merged
/// into one, nothing if no tuple was indexed.
pub open spec fn finished(held: Seq<Segment>, out: Seq<Segment>) -> bool {
    if held.len() <= 1 {
        out == held
    } else if out.len() == 0 {
        &&& forall|i: int, tid: Tid| 0 <= i < held.len() ==> !#[trigger] held[i].indexed(tid)
        &&& forall|i: int, t: Seq<char>, tid: Tid| 0 <= i < held.len() ==> !#[trigger] held[i].has(t, tid)
    } else {
        &&& out.len() == 1
        &&& out[0].wf()
        &&& is_merge(out[0], inputs_of(held))
        &&& out[0].spec_meta().grams == all_grams(inputs_of(held))
    }
}

/// The segments that a build has closed.
pub struct Closed {
    /// Not written yet, to be merged at the end.
    pub held: Vec<Segment>,
    pub held_bytes: u64,
    /// Segments are written as they close (too many to merge in memory).
    pub spilled: bool,
    pub budget: u64,
    /// Build threads (0: a serial build).
    pub workers: usize,
    /// The index stores grams.
    pub grams: bool,
}

impl Closed {
    pub fn new(budget: u64, workers: usize, grams: bool) -> (r: Self)
        ensures
            r.held@.len() == 0,
            r.held_bytes == 0,
            !r.spilled,
            r.budget == budget,
            r.workers == workers,
            r.grams == grams,
    {
        Closed { held: Vec::new(), held_bytes: 0, spilled: false, budget, workers, grams }
    }

    /// The builder of the next segment, from `first_block` on.
    pub fn next_builder(&self, first_block: u32) -> (r: SegmentBuilder)
        requires
            (u32::MAX - first_block) * 512 + 0x1_0000 <= usize::MAX,
            size_limit(0),
        ensures
            r.wf(),
            r.docs().len() == 0,
            r.range() == (first_block, u32::MAX),
            r.size() == 0,
            r.is_open(),
            r.spec_grams() == self.grams,
    {
        SegmentBuilder::open_ended(first_block).with_grams(self.grams)
    }

    /// A closed segment: hold it, or return what is to be written now.
    pub fn take_segment(&mut self, seg: Segment) -> (r: Vec<Segment>)
        requires
            seg.wf(),
            bytes_of(seg) <= usize::MAX,
            old(self).held_bytes + bytes_of(seg) <= u64::MAX,
            may_merge(old(self).held@.push(seg)),
        ensures
            final(self).budget == old(self).budget,
            final(self).workers == old(self).workers,
            final(self).grams == old(self).grams,
            ({
                let all = old(self).held@.push(seg);
                let bytes = old(self).held_bytes + bytes_of(seg);
                if old(self).spilled {
                    &&& r@ == seq![seg]
                    &&& *final(self) == *old(self)
                } else if old(self).workers == 0 && bytes > old(self).budget / 2 {
                    &&& r@ == all
                    &&& final(self).held@.len() == 0
                    &&& final(self).held_bytes == 0
                    &&& final(self).spilled
                } else if old(self).workers > 0 && bytes > old(self).budget / 4 {
                    &&& finished(all, r@)
                    &&& final(self).held@.len() == 0
                    &&& final(self).held_bytes == 0
                    &&& !final(self).spilled
                } else {
                    &&& r@.len() == 0
                    &&& final(self).held@ == all
                    &&& final(self).held_bytes == bytes
                    &&& !final(self).spilled
                }
            }),
    {
        if self.spilled {
            let out: Vec<Segment> = vec![seg];
            proof {
                assert(out@ =~= seq![seg]);
            }
            return out;
        }
        self.held_bytes = self.held_bytes + seg.size_bytes() as u64;
        self.held.push(seg);
        if self.workers == 0 {
            if self.held_bytes > self.budget / 2 {
                return self.spill();
            }
        } else if self.held_bytes > self.budget / 4 {
            // Batch segments are small: merge what is held into one and
            // write that, rather than many.
            return self.finish();
        }
        Vec::new()
    }

    /// Everything held is written as it is.
    fn spill(&mut self) -> (r: Vec<Segment>)
        ensures
            r@ == old(self).held@,
            final(self).held@.len() == 0,
            final(self).held_bytes == 0,
            final(self).spilled == (old(self).workers == 0),
            final(self).budget == old(self).budget,
            final(self).workers == old(self).workers,
            final(self).grams == old(self).grams,
    {
        let mut out: Vec<Segment> = Vec::new();
        std::mem::swap(&mut out, &mut self.held);
        self.held_bytes = 0;
        self.spilled = self.workers == 0;
        out
    }

    /// What is held, merged into one segment if there are several.
    pub fn finish(&mut self) -> (r: Vec<Segment>)
        requires
            may_merge(old(self).held@),
        ensures
            finished(old(self).held@, r@),
            final(self).held@.len() == 0,
            final(self).held_bytes == 0,
            final(self).spilled == (if old(self).held@.len() > 1 { old(self).spilled } else { old(self).workers == 0 }),
            final(self).budget == old(self).budget,
            final(self).workers == old(self).workers,
            final(self).grams == old(self).grams,
    {
        if self.held.len() <= 1 {
            return self.spill();
        }
        let spilled: bool = self.spilled;
        let held: Vec<Segment> = self.spill();
        self.spilled = spilled;
        let ghost segs = held@;
        let mut inputs: Vec<(&Segment, Option<&[u64]>)> = Vec::new();
        let mut i: usize = 0;
        while i < held.len()
            invariant
                segs == held@,
                i <= segs.len(),
                inputs@.len() == i,
                forall|k: int| 0 <= k < i ==> #[trigger] inputs@[k] == inputs_of(segs)[k],
            decreases segs.len() - i,
        {
            inputs.push((&held[i], None));
            i = i + 1;
        }
        proof {
            assert(inputs@ =~= inputs_of(segs));
        }
        let mut out: Vec<Segment> = Vec::new();
        match Segment::merge(&inputs) {
            Some(m) => {
                out.push(m);
            },
            None => {
                proof {
                    assert forall|j: int, tid: Tid| 0 <= j < segs.len() implies !#[trigger] segs[j].indexed(tid) by {
                        assert(!kept_tuples(inputs@, inputs@.len() as int).contains(tid));
                        if segs[j].indexed(tid) {
                            assert(live_doc(inputs@[j], tid));
                        }
                    }
                    assert forall|j: int, t: Seq<char>, tid: Tid| 0 <= j < segs.len() implies !#[trigger] segs[j].has(t, tid) by {
                        if segs[j].has(t, tid) {
                            segs[j].lemma_has_indexed(t, tid);
                        }
                    }
                }
            },
        }
        out
    }
}

// ---------------------------------------------------------------------------
// Laws
// ---------------------------------------------------------------------------

/// Finishing a build loses and invents nothing: what is written indexes a
/// tuple exactly if a held segment does, and has a term in it exactly if a held
/// segment has.
pub proof fn finishing_keeps_tuples(held: Seq<Segment>, out: Seq<Segment>, t: Seq<char>, tid: Tid)
    requires
        finished(held, out),
    ensures
        (exists|i: int| 0 <= i < out.len() && (#[trigger] out[i]).has(t, tid)) <==> exists|i: int| 0 <= i < held.len() && (#[trigger] held[i]).has(t, tid),
        (exists|i: int| 0 <= i < out.len() && (#[trigger] out[i]).indexed(tid)) <==> exists|i: int| 0 <= i < held.len() && (#[trigger] held[i]).indexed(tid),
{
    if held.len() > 1 && out.len() == 1 {
        let ins = inputs_of(held);
        assert(out[0].has(t, tid) <==> crate::merge::kept_in(ins, ins.len() as int, t, tid));
        if exists|i: int| 0 <= i < held.len() && (#[trigger] held[i]).has(t, tid) {
            let i = choose|i: int| 0 <= i < held.len() && (#[trigger] held[i]).has(t, tid);
            assert(crate::merge::live_in(ins[i], t, tid));
            assert(out[0].has(t, tid));
        }
        if out[0].has(t, tid) {
            let i = choose|i: int| 0 <= i < ins.len() && crate::merge::live_in(#[trigger] ins[i], t, tid);
            assert(held[i].has(t, tid));
        }
        assert(out[0].indexed(tid) <==> kept_tuples(ins, ins.len() as int).contains(tid));
        if exists|i: int| 0 <= i < held.len() && (#[trigger] held[i]).indexed(tid) {
            let i = choose|i: int| 0 <= i < held.len() && (#[trigger] held[i]).indexed(tid);
            assert(live_doc(ins[i], tid));
            assert(out[0].indexed(tid));
        }
        if out[0].indexed(tid) {
            let i = choose|i: int| 0 <= i < ins.len() && live_doc(#[trigger] ins[i], tid);
            assert(held[i].indexed(tid));
        }
    }
}

} // verus!
