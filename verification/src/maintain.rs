//! Maintenance decisions: when the pending list is flushed, which segments
//! are merged or compacted, what VACUUM keeps, and how the metapage changes.
//!
//! Locks, pages and logging are the caller's; everything here goes from plain
//! values to plain values.

use vstd::prelude::*;
use vstd::arithmetic::power::{lemma_pow0, lemma_pow_adds, lemma_pow1, pow};
use crate::drive::alive;
use crate::merge::{is_merge, kept_in, live_in, merging_keeps_matches, within_limit, Input};
use crate::meta::{Meta, SegmentRef, PAGE_PAYLOAD};
use crate::pattern::{GRAM_MARK, MAX_GRAM_TERM};
use crate::pending::{encode, put_bytes, record_views, Record, RecordView};
use crate::plan::{plan_matches, PlanView};
use crate::rank::Sources;
use crate::scan::source_hits;
use crate::segment::{doc_added, doc_has, runnable, runnable_needs_terms, set_tid, size_limit, takes, Segment, SegmentBuilder};
use crate::space::{lemma_below_mono, lemma_below_step, Widths};
use crate::text::chars_of;
use crate::tid::{Tid, MAX_OFFSET};
use crate::words::{bit, clear_bit};

verus! {

// ---------------------------------------------------------------------------
// Tiers
// ---------------------------------------------------------------------------

/// Whenever this many segments share a tier they are merged into one, so the
/// segment count stays logarithmic in the number of flushes.
pub const MERGE_FACTOR: usize = 4;

pub const TIER_BASE: u64 = 65536;

/// Segments above this are left alone; merging them inline would stall
/// writers.
pub const MERGE_MAX_BYTES: u64 = 67108864;

/// How often `cap` grows eightfold until it holds `len`.
pub open spec fn tier_from(len: int, cap: int) -> int
    decreases (if len > cap { len - cap } else { 0 }),
{
    if len <= cap || cap <= 0 {
        0
    } else {
        1 + tier_from(len, cap * 8)
    }
}

/// Size tiers for merging: a segment of `len` bytes is in tier
/// `log8(len / 64 kB)`, rounded up.
pub open spec fn tier_of(len: int) -> int {
    tier_from(len, TIER_BASE as int)
}

/// The size tier of a segment of `len` bytes.
pub fn tier(len: u64) -> (r: u32)
    requires
        len <= 0x2000_0000_0000_0000,
    ensures
        r == tier_of(len as int),
{
    let mut t: u32 = 0;
    let mut cap: u64 = TIER_BASE;
    while len > cap
        invariant
            0 < cap <= 0x2000_0000_0000_0000,
            len <= 0x2000_0000_0000_0000,
            t + tier_from(len as int, cap as int) == tier_of(len as int),
            t < 16,
            tier_room(t as int, cap as int),
        decreases (if len > cap { len - cap } else { 0 }),
    {
        proof {
            lemma_tier_room(t as int, cap as int);
        }
        cap = cap * 8;
        t = t + 1;
    }
    t
}

/// `cap` after `t` steps.
spec fn tier_room(t: int, cap: int) -> bool {
    ||| t == 0 && cap == 0x1_0000
    ||| t == 1 && cap == 0x8_0000
    ||| t == 2 && cap == 0x40_0000
    ||| t == 3 && cap == 0x200_0000
    ||| t == 4 && cap == 0x1000_0000
    ||| t == 5 && cap == 0x8000_0000
    ||| t == 6 && cap == 0x4_0000_0000
    ||| t == 7 && cap == 0x20_0000_0000
    ||| t == 8 && cap == 0x100_0000_0000
    ||| t == 9 && cap == 0x800_0000_0000
    ||| t == 10 && cap == 0x4000_0000_0000
    ||| t == 11 && cap == 0x2_0000_0000_0000
    ||| t == 12 && cap == 0x10_0000_0000_0000
    ||| t == 13 && cap == 0x80_0000_0000_0000
    ||| t == 14 && cap == 0x400_0000_0000_0000
    ||| t == 15 && cap == 0x2000_0000_0000_0000
}

proof fn lemma_tier_room(t: int, cap: int)
    requires
        tier_room(t, cap),
        cap < 0x2000_0000_0000_0000,
    ensures
        tier_room(t + 1, cap * 8),
        t + 1 < 16,
        cap * 8 <= 0x2000_0000_0000_0000,
{
}

/// Small segments are in the first five tiers.
proof fn lemma_small_tiers(len: int)
    requires
        0 <= len <= MERGE_MAX_BYTES,
    ensures
        0 <= tier_of(len) <= 4,
{
    reveal_with_fuel(tier_from, 6);
}

/// The segments among the first `n` that may be merged in tier `t`.
pub open spec fn in_tier(segs: Seq<SegmentRef>, t: int, n: int) -> Seq<SegmentRef>
    decreases n,
{
    if n <= 0 {
        Seq::empty()
    } else if segs[n - 1].len <= MERGE_MAX_BYTES && tier_of(segs[n - 1].len as int) == t {
        in_tier(segs, t, n - 1).push(segs[n - 1])
    } else {
        in_tier(segs, t, n - 1)
    }
}

/// The segments to merge next: the first four of the lowest full tier.
pub fn merge_group(segs: &Vec<SegmentRef>) -> (r: Option<Vec<SegmentRef>>)
    ensures
        match r {
            Some(g) => exists|t: int|
                {
                    &&& #[trigger] in_tier(segs@, t, segs@.len() as int).len() >= MERGE_FACTOR
                    &&& g@ == in_tier(segs@, t, segs@.len() as int).take(MERGE_FACTOR as int)
                    &&& forall|u: int| u < t ==> (#[trigger] in_tier(segs@, u, segs@.len() as int)).len() < MERGE_FACTOR
                },
            None => forall|t: int| (#[trigger] in_tier(segs@, t, segs@.len() as int)).len() < MERGE_FACTOR,
        },
        r matches Some(g) ==> g@.len() == 4,
        r is None ==> forall|t: int| (#[trigger] in_tier(segs@, t, segs@.len() as int)).len() <= 3,
{
    let ghost n = segs@.len() as int;
    let mut t: u32 = 0;
    proof {
        assert forall|u: int| u < 0 || u > 4 implies (#[trigger] in_tier(segs@, u, n)).len() < MERGE_FACTOR by {
            lemma_tier_range(segs@, u, n);
        }
    }
    while t < 5
        invariant
            n == segs@.len(),
            t <= 5,
            forall|u: int| u < t || u > 4 ==> (#[trigger] in_tier(segs@, u, n)).len() < MERGE_FACTOR,
        decreases 5 - t,
    {
        let mut g: Vec<SegmentRef> = Vec::new();
        let mut i: usize = 0;
        proof {
            assert(in_tier(segs@, t as int, 0).take(0) =~= Seq::empty());
        }
        while i < segs.len()
            invariant
                i <= segs@.len(),
                g@ == in_tier(segs@, t as int, i as int),
            decreases segs@.len() - i,
        {
            let s: SegmentRef = segs[i];
            if s.len <= MERGE_MAX_BYTES && tier(s.len) == t {
                g.push(s);
            }
            i = i + 1;
        }
        if g.len() >= MERGE_FACTOR {
            let mut group: Vec<SegmentRef> = Vec::new();
            let mut k: usize = 0;
            while k < MERGE_FACTOR
                invariant
                    k <= MERGE_FACTOR,
                    g@.len() >= MERGE_FACTOR,
                    group@ == g@.take(k as int),
                decreases MERGE_FACTOR - k,
            {
                group.push(g[k]);
                k = k + 1;
                proof {
                    assert(group@ =~= g@.take(k as int));
                }
            }
            proof {
                let chosen = in_tier(segs@, t as int, n);
                assert(chosen.len() >= MERGE_FACTOR && group@ == chosen.take(MERGE_FACTOR as int));
            }
            return Some(group);
        }
        t = t + 1;
    }
    None
}

proof fn lemma_tier_range(segs: Seq<SegmentRef>, t: int, n: int)
    requires
        0 <= n <= segs.len(),
        t < 0 || t > 4,
    ensures
        in_tier(segs, t, n).len() == 0,
    decreases n,
{
    if n > 0 {
        lemma_tier_range(segs, t, n - 1);
        if segs[n - 1].len <= MERGE_MAX_BYTES {
            lemma_small_tiers(segs[n - 1].len as int);
        }
    }
}

// ---------------------------------------------------------------------------
// The segment table
// ---------------------------------------------------------------------------

/// Some of the segments has this id.
pub open spec fn has_id(segs: Seq<SegmentRef>, id: u32) -> bool {
    exists|i: int| 0 <= i < segs.len() && (#[trigger] segs[i]).id == id
}

/// The segments among the first `n` that are none of `gone`.
pub open spec fn kept(segs: Seq<SegmentRef>, gone: Seq<SegmentRef>, n: int) -> Seq<SegmentRef>
    decreases n,
{
    if n <= 0 {
        Seq::empty()
    } else if has_id(gone, segs[n - 1].id) {
        kept(segs, gone, n - 1)
    } else {
        kept(segs, gone, n - 1).push(segs[n - 1])
    }
}

/// The chains of segments and of their liveness.
pub open spec fn chains_of(segs: Seq<SegmentRef>) -> Seq<(u32, u32)>
    decreases segs.len(),
{
    if segs.len() == 0 {
        Seq::empty()
    } else {
        let s = segs.last();
        chains_of(segs.drop_last()) + seq![(s.first_block, s.n_blocks), (s.live_first, s.live_blocks)]
    }
}

fn id_in(segs: &Vec<SegmentRef>, id: u32) -> (r: bool)
    ensures
        r == has_id(segs@, id),
{
    let mut i: usize = 0;
    while i < segs.len()
        invariant
            i <= segs@.len(),
            forall|k: int| 0 <= k < i ==> (#[trigger] segs@[k]).id != id,
        decreases segs@.len() - i,
    {
        if segs[i].id == id {
            return true;
        }
        i = i + 1;
    }
    false
}

fn kept_segments(segs: &Vec<SegmentRef>, gone: &Vec<SegmentRef>) -> (r: Vec<SegmentRef>)
    ensures
        r@ == kept(segs@, gone@, segs@.len() as int),
{
    let mut out: Vec<SegmentRef> = Vec::new();
    let mut i: usize = 0;
    while i < segs.len()
        invariant
            i <= segs@.len(),
            out@ == kept(segs@, gone@, i as int),
        decreases segs@.len() - i,
    {
        if !id_in(gone, segs[i].id) {
            out.push(segs[i]);
        }
        i = i + 1;
    }
    out
}

fn retire_chains(retired: &mut Vec<(u32, u32)>, gone: &Vec<SegmentRef>)
    ensures
        final(retired)@ == old(retired)@ + chains_of(gone@),
{
    let ghost start = retired@;
    let mut i: usize = 0;
    proof {
        assert(gone@.take(0) =~= Seq::empty());
    }
    while i < gone.len()
        invariant
            i <= gone@.len(),
            retired@ == start + chains_of(gone@.take(i as int)),
        decreases gone@.len() - i,
    {
        let s: SegmentRef = gone[i];
        retired.push((s.first_block, s.n_blocks));
        retired.push((s.live_first, s.live_blocks));
        i = i + 1;
        proof {
            let next = gone@.take(i as int);
            assert(next.drop_last() =~= gone@.take(i - 1));
            assert(next.last() == s);
            assert(retired@ =~= start + chains_of(next));
        }
    }
    proof {
        assert(gone@.take(i as int) =~= gone@);
    }
}

/// A segment on its chains, under a new id.
pub open spec fn named(s: SegmentRef, id: u32) -> SegmentRef {
    SegmentRef { id, ..s }
}

/// Add a written segment to the segment table, under the next id.
pub fn add_segment(meta: &mut Meta, s: SegmentRef)
    requires
        old(meta).next_segment_id < u32::MAX,
    ensures
        final(meta).segments@ == old(meta).segments@.push(named(s, old(meta).next_segment_id)),
        final(meta).next_segment_id == old(meta).next_segment_id + 1,
        final(meta).retired@ == old(meta).retired@,
        final(meta).generation == old(meta).generation,
        same_backlog(*final(meta), *old(meta)),
{
    let mut r: SegmentRef = s;
    r.id = meta.next_segment_id;
    meta.segments.push(r);
    meta.next_segment_id = meta.next_segment_id + 1;
}

/// The pending list of both is the same.
pub open spec fn same_backlog(a: Meta, b: Meta) -> bool {
    &&& a.pending_head == b.pending_head
    &&& a.pending_tail == b.pending_tail
    &&& a.pending_tail_used == b.pending_tail_used
    &&& a.pending_bytes == b.pending_bytes
    &&& a.pending_count == b.pending_count
}

/// Merge `group` away in the segment table: their chains are retired, and the
/// merged segment, if it holds any tuple, is added.
pub fn merge_segments(meta: &mut Meta, group: &Vec<SegmentRef>, merged: Option<SegmentRef>)
    requires
        old(meta).next_segment_id < u32::MAX,
    ensures
        merged_table(*old(meta), group@, merged, *final(meta)),
{
    meta.segments = kept_segments(&meta.segments, group);
    retire_chains(&mut meta.retired, group);
    if let Some(s) = merged {
        add_segment(meta, s);
    }
}

/// The table after `group` was merged into `merged`.
pub open spec fn merged_table(before: Meta, group: Seq<SegmentRef>, merged: Option<SegmentRef>, after: Meta) -> bool {
    let rest = kept(before.segments@, group, before.segments@.len() as int);
    &&& after.retired@ == before.retired@ + chains_of(group)
    &&& after.generation == before.generation
    &&& same_backlog(after, before)
    &&& match merged {
        Some(s) => after.segments@ == rest.push(named(s, before.next_segment_id)) && after.next_segment_id == before.next_segment_id + 1,
        None => after.segments@ == rest && after.next_segment_id == before.next_segment_id,
    }
}

/// Install `next`'s segment table, built from a snapshot of generation
/// `snap`, in the current metapage. `None` if the index changed since the
/// snapshot: installing could resurrect tuples that VACUUM just removed.
pub fn install(meta: &Meta, snap: u64, next: &Meta) -> (r: Option<Meta>)
    requires
        meta.generation < u64::MAX,
    ensures
        match r {
            Some(m) => {
                &&& meta.generation == snap
                &&& m.segments@ == next.segments@
                &&& m.retired@ == next.retired@
                &&& m.next_segment_id == next.next_segment_id
                &&& m.generation == meta.generation + 1
                &&& same_backlog(m, *meta)
            },
            None => meta.generation != snap,
        },
{
    if meta.generation != snap {
        return None;
    }
    let mut m: Meta = next.copy();
    m.generation = meta.generation + 1;
    m.pending_head = meta.pending_head;
    m.pending_tail = meta.pending_tail;
    m.pending_tail_used = meta.pending_tail_used;
    m.pending_bytes = meta.pending_bytes;
    m.pending_count = meta.pending_count;
    Some(m)
}

/// Records appended since a snapshot was taken: they stay pending when what was
/// in the snapshot is flushed.
pub fn left_pending(snap: &Meta, current: &Meta) -> (r: u64)
    requires
        snap.pending_count <= current.pending_count,
    ensures
        r == current.pending_count - snap.pending_count,
{
    current.pending_count - snap.pending_count
}

// ---------------------------------------------------------------------------
// Compaction
// ---------------------------------------------------------------------------

/// Segments that are merged whatever their sizes.
pub const COMPACT_SEGMENTS: usize = 12;

pub open spec fn total_len(segs: Seq<SegmentRef>, n: int) -> int
    decreases n,
{
    if n <= 0 {
        0
    } else {
        total_len(segs, n - 1) + segs[n - 1].len
    }
}

pub open spec fn largest_len(segs: Seq<SegmentRef>, n: int) -> int
    decreases n,
{
    if n <= 0 {
        0
    } else if segs[n - 1].len > largest_len(segs, n - 1) {
        segs[n - 1].len as int
    } else {
        largest_len(segs, n - 1)
    }
}

/// Whether every segment is merged into one: the others add up to more than a
/// quarter of the largest, or there are more than [`COMPACT_SEGMENTS`]. Needs
/// the whole index in memory twice over, so only while it fits `budget`.
pub fn worth_compacting(segs: &Vec<SegmentRef>, budget: u64) -> (r: bool)
    requires
        segs@.len() <= u32::MAX,
    ensures
        r == ({
            let n = segs@.len() as int;
            let (total, largest) = (total_len(segs@, n), largest_len(segs@, n));
            &&& n >= 2
            &&& 4 * (total - largest) > largest || n > COMPACT_SEGMENTS
            &&& total * 2 <= budget
        }),
        segs@.len() > 12 && total_len(segs@, segs@.len() as int) * 2 <= budget ==> r,
        segs@.len() <= 12 && r ==> 4 * (total_len(segs@, segs@.len() as int) - largest_len(segs@, segs@.len() as int)) > largest_len(
            segs@,
            segs@.len() as int,
        ),
{
    let mut total: u128 = 0;
    let mut largest: u128 = 0;
    let mut i: usize = 0;
    while i < segs.len()
        invariant
            segs@.len() <= u32::MAX,
            i <= segs@.len(),
            total == total_len(segs@, i as int),
            largest == largest_len(segs@, i as int),
            largest <= total <= i * 0x1_0000_0000_0000_0000,
        decreases segs@.len() - i,
    {
        let len: u128 = segs[i].len as u128;
        total = total + len;
        if len > largest {
            largest = len;
        }
        i = i + 1;
    }
    let n: usize = segs.len();
    if n < 2 || total * 2 > budget as u128 {
        return false;
    }
    (total - largest) * 4 > largest || n > COMPACT_SEGMENTS
}

/// How many of the first `n` segments are among `gone`.
pub open spec fn present(segs: Seq<SegmentRef>, gone: Seq<SegmentRef>, n: int) -> nat
    decreases n,
{
    if n <= 0 {
        0
    } else {
        present(segs, gone, n - 1) + (if has_id(gone, segs[n - 1].id) { 1nat } else { 0nat })
    }
}

/// How many different ids the first `n` segments have.
pub open spec fn distinct_ids(segs: Seq<SegmentRef>, n: int) -> nat
    decreases n,
{
    if n <= 0 {
        0
    } else {
        distinct_ids(segs, n - 1) + (if has_id(segs.take(n - 1), segs[n - 1].id) { 0nat } else { 1nat })
    }
}

/// The metapage once a compaction of `snap` is installed.
pub open spec fn compacted(meta: Meta, snap: Seq<SegmentRef>, merged: Option<SegmentRef>, after: Meta) -> bool {
    let rest = kept(meta.segments@, snap, meta.segments@.len() as int);
    &&& after.retired@ == meta.retired@ + chains_of(snap)
    &&& after.generation == meta.generation + 1
    &&& same_backlog(after, meta)
    &&& match merged {
        Some(s) => after.segments@ == rest.push(named(s, meta.next_segment_id)) && after.next_segment_id == meta.next_segment_id + 1,
        None => after.segments@ == rest && after.next_segment_id == meta.next_segment_id,
    }
}

/// The size of the metapage once a compaction is installed.
pub open spec fn compacted_size(meta: Meta, snap: Seq<SegmentRef>, merged: Option<SegmentRef>) -> int {
    let rest = kept(meta.segments@, snap, meta.segments@.len() as int);
    crate::meta::meta_size(rest.len() + (if merged is Some { 1int } else { 0int }), (meta.retired@.len() + chains_of(snap).len()) as int)
}

/// Install a compaction: flushes kept adding segments meanwhile (without
/// merging), so those are kept, and exactly the ones merged are retired; the
/// merged one gets an id that none flushed meanwhile has. `None` if some of
/// them is gone, or if the metapage would overflow: then the pages written
/// are given back instead.
pub fn compact_locked(meta: &Meta, snap: &Vec<SegmentRef>, merged: Option<SegmentRef>) -> (r: Option<Meta>)
    requires
        meta.next_segment_id < u32::MAX,
        meta.generation < u64::MAX,
    ensures
        match r {
            Some(m) => {
                &&& present(meta.segments@, snap@, meta.segments@.len() as int) == distinct_ids(snap@, snap@.len() as int)
                &&& m.spec_fits()
                &&& compacted(*meta, snap@, merged, m)
            },
            None => {
                ||| present(meta.segments@, snap@, meta.segments@.len() as int) != distinct_ids(snap@, snap@.len() as int)
                ||| compacted_size(*meta, snap@, merged) > PAGE_PAYLOAD
            },
        },
{
    let mut found: usize = 0;
    let mut i: usize = 0;
    while i < meta.segments.len()
        invariant
            i <= meta.segments@.len(),
            found <= i,
            found == present(meta.segments@, snap@, i as int),
        decreases meta.segments@.len() - i,
    {
        if id_in(snap, meta.segments[i].id) {
            found = found + 1;
        }
        i = i + 1;
    }
    let mut ids: usize = 0;
    let mut j: usize = 0;
    let mut seen: Vec<SegmentRef> = Vec::new();
    proof {
        assert(seen@ =~= snap@.take(0));
    }
    while j < snap.len()
        invariant
            j <= snap@.len(),
            ids <= j,
            seen@ == snap@.take(j as int),
            ids == distinct_ids(snap@, j as int),
        decreases snap@.len() - j,
    {
        if !id_in(&seen, snap[j].id) {
            ids = ids + 1;
        }
        seen.push(snap[j]);
        j = j + 1;
        proof {
            assert(seen@ =~= snap@.take(j as int));
        }
    }
    let mut next: Meta = meta.copy();
    merge_segments(&mut next, snap, merged);
    next.generation = meta.generation + 1;
    proof {
        assert(next.segments@.len() == kept(meta.segments@, snap@, meta.segments@.len() as int).len() + (if merged is Some { 1int } else { 0int }));
    }
    if found != ids || !next.fits() {
        return None;
    }
    Some(next)
}

// ---------------------------------------------------------------------------
// Flushing
// ---------------------------------------------------------------------------

/// Whether the pending list has outgrown `limit_kb` and is flushed.
pub fn flush_due(meta: &Meta, limit_kb: u32) -> (r: bool)
    ensures
        r == (meta.pending_bytes > limit_kb * 1024),
{
    meta.pending_bytes > limit_kb as u64 * 1024
}

/// Records in tuple order, no tuple twice.
pub open spec fn tids_ascend(rs: Seq<RecordView>) -> bool {
    forall|i: int, j: int| 0 <= i < j < rs.len() ==> (#[trigger] rs[i]).0.before((#[trigger] rs[j]).0)
}

/// Record `r` is the first of its tuple.
pub open spec fn first_of_tid(rs: Seq<RecordView>, r: RecordView) -> bool {
    exists|i: int| 0 <= i < rs.len() && #[trigger] rs[i] == r && forall|j: int| 0 <= j < i ==> (#[trigger] rs[j]).0 != r.0
}

/// The records of a flush, in tuple order; of several for one tuple, the
/// first (a tid is only reused after VACUUM removed its record).
pub fn flush_order(records: Vec<Record>) -> (r: Vec<Record>)
    ensures
        tids_ascend(record_views(r@)),
        forall|x: RecordView| #[trigger] record_views(r@).contains(x) <==> first_of_tid(record_views(records@), x),
{
    let ghost all = record_views(records@);
    let mut rest: Vec<Record> = records;
    let mut turned: Vec<Record> = Vec::new();
    let ghost n = all.len() as int;
    proof {
        assert(all.skip(n) =~= Seq::empty());
        assert(record_views(rest@) =~= all.take(n));
        assert(record_views(turned@).reverse() =~= all.skip(n));
    }
    loop
        invariant
            n == all.len(),
            rest@.len() <= n,
            record_views(rest@) == all.take(rest@.len() as int),
            turned@.len() == n - rest@.len(),
            forall|k: int| 0 <= k < turned@.len() ==> (#[trigger] turned@[k])@ == all[n - 1 - k],
        ensures
            turned@.len() == n,
            forall|k: int| 0 <= k < turned@.len() ==> (#[trigger] turned@[k])@ == all[n - 1 - k],
        decreases rest@.len(),
    {
        let ghost was = rest@;
        match rest.pop() {
            None => {
                break;
            },
            Some(x) => {
                proof {
                    assert(x@ == record_views(was)[was.len() - 1]);
                    assert(x@ == all[was.len() - 1]);
                    assert(record_views(rest@) =~= all.take(rest@.len() as int));
                }
                turned.push(x);
            },
        }
    }
    let mut out: Vec<Record> = Vec::new();
    proof {
        assert(all.take(0) =~= Seq::empty());
    }
    loop
        invariant
            n == all.len(),
            turned@.len() <= n,
            forall|k: int| 0 <= k < turned@.len() ==> (#[trigger] turned@[k])@ == all[n - 1 - k],
            tids_ascend(record_views(out@)),
            forall|x: RecordView| #[trigger] record_views(out@).contains(x) <==> first_of_tid(all.take(n - turned@.len()), x),
        ensures
            tids_ascend(record_views(out@)),
            forall|x: RecordView| #[trigger] record_views(out@).contains(x) <==> first_of_tid(all, x),
        decreases turned@.len(),
    {
        let ghost was = turned@;
        match turned.pop() {
            None => {
                proof {
                    assert(all.take(n) =~= all);
                }
                break;
            },
            Some(x) => {
                let ghost done = all.take(n - was.len());
                let ghost next = all.take(n - was.len() + 1);
                let ghost before = record_views(out@);
                proof {
                    assert(x@ == all[n - was.len()]);
                    assert(next =~= done.push(x@));
                }
                let ghost xv = x@;
                insert_record(&mut out, x);
                proof {
                    assert forall|y: RecordView| #[trigger] record_views(out@).contains(y) <==> first_of_tid(next, y) by {
                        lemma_first_push(done, xv, y);
                        assert(before.contains(y) <==> first_of_tid(done, y));
                        lemma_some_first(done, xv.0);
                        if exists|i: int| 0 <= i < before.len() && (#[trigger] before[i]).0 == xv.0 {
                            let i = choose|i: int| 0 <= i < before.len() && (#[trigger] before[i]).0 == xv.0;
                            assert(before.contains(before[i]));
                            assert(first_of_tid(done, before[i]));
                        }
                        if exists|z: RecordView| first_of_tid(done, z) && z.0 == xv.0 {
                            let z = choose|z: RecordView| first_of_tid(done, z) && z.0 == xv.0;
                            assert(before.contains(z));
                            let i = before.index_of(z);
                            assert(before[i].0 == xv.0);
                        }
                    }
                }
            },
        }
    }
    out
}

/// One more record is the first of its tuple if none before it is of it.
proof fn lemma_first_push(rs: Seq<RecordView>, x: RecordView, y: RecordView)
    ensures
        first_of_tid(rs.push(x), y) <==> first_of_tid(rs, y) || (y == x && forall|j: int| 0 <= j < rs.len() ==> (#[trigger] rs[j]).0 != x.0),
{
    let all = rs.push(x);
    if first_of_tid(all, y) {
        let i = choose|i: int| 0 <= i < all.len() && #[trigger] all[i] == y && forall|j: int| 0 <= j < i ==> (#[trigger] all[j]).0 != y.0;
        if i < rs.len() {
            assert(rs[i] == y);
            assert forall|j: int| 0 <= j < i implies (#[trigger] rs[j]).0 != y.0 by {
                assert(all[j] == rs[j]);
            }
        } else {
            assert forall|j: int| 0 <= j < rs.len() implies (#[trigger] rs[j]).0 != x.0 by {
                assert(all[j] == rs[j]);
            }
        }
    }
    if first_of_tid(rs, y) {
        let i = choose|i: int| 0 <= i < rs.len() && #[trigger] rs[i] == y && forall|j: int| 0 <= j < i ==> (#[trigger] rs[j]).0 != y.0;
        assert(all[i] == y);
        assert forall|j: int| 0 <= j < i implies (#[trigger] all[j]).0 != y.0 by {
            assert(all[j] == rs[j]);
        }
    }
    if y == x && forall|j: int| 0 <= j < rs.len() ==> (#[trigger] rs[j]).0 != x.0 {
        assert(all[rs.len() as int] == y);
        assert forall|j: int| 0 <= j < rs.len() implies (#[trigger] all[j]).0 != y.0 by {
            assert(all[j] == rs[j]);
        }
    }
}

/// A tuple with a record has a first one.
proof fn lemma_some_first(rs: Seq<RecordView>, t: Tid)
    ensures
        (exists|j: int| 0 <= j < rs.len() && (#[trigger] rs[j]).0 == t) <==> (exists|z: RecordView| first_of_tid(rs, z) && z.0 == t),
    decreases rs.len(),
{
    if exists|j: int| 0 <= j < rs.len() && (#[trigger] rs[j]).0 == t {
        let j = choose|j: int| 0 <= j < rs.len() && (#[trigger] rs[j]).0 == t;
        lemma_first_upto(rs, t, j);
    }
    if exists|z: RecordView| first_of_tid(rs, z) && z.0 == t {
        let z = choose|z: RecordView| first_of_tid(rs, z) && z.0 == t;
        let i = choose|i: int| 0 <= i < rs.len() && #[trigger] rs[i] == z && forall|j: int| 0 <= j < i ==> (#[trigger] rs[j]).0 != z.0;
        assert(rs[i].0 == t);
    }
}

proof fn lemma_first_upto(rs: Seq<RecordView>, t: Tid, j: int)
    requires
        0 <= j < rs.len(),
        rs[j].0 == t,
    ensures
        exists|z: RecordView| first_of_tid(rs, z) && z.0 == t,
    decreases j,
{
    if exists|k: int| 0 <= k < j && (#[trigger] rs[k]).0 == t {
        let k = choose|k: int| 0 <= k < j && (#[trigger] rs[k]).0 == t;
        lemma_first_upto(rs, t, k);
    } else {
        assert(first_of_tid(rs, rs[j]));
    }
}

/// Put a record in its place, unless its tuple has one.
fn insert_record(out: &mut Vec<Record>, x: Record)
    requires
        tids_ascend(record_views(old(out)@)),
    ensures
        tids_ascend(record_views(final(out)@)),
        ({
            let before = record_views(old(out)@);
            let taken = exists|i: int| 0 <= i < before.len() && (#[trigger] before[i]).0 == x@.0;
            forall|y: RecordView| #[trigger] record_views(final(out)@).contains(y) <==> before.contains(y) || (y == x@ && !taken)
        }),
{
    let ghost v = record_views(out@);
    let mut lo: usize = 0;
    let mut hi: usize = out.len();
    let t: Tid = x.tid;
    while lo < hi
        invariant
            v == record_views(out@),
            t == x@.0,
            tids_ascend(v),
            lo <= hi <= out@.len(),
            forall|i: int| 0 <= i < lo ==> (#[trigger] v[i]).0.before(t),
            forall|i: int| hi <= i < v.len() ==> t.before((#[trigger] v[i]).0),
        decreases hi - lo,
    {
        let mid: usize = lo + (hi - lo) / 2;
        let m: Tid = out[mid].tid;
        proof {
            assert(v[mid as int].0 == m);
        }
        if m.block < t.block || (m.block == t.block && m.offset < t.offset) {
            proof {
                assert forall|i: int| 0 <= i < mid + 1 implies (#[trigger] v[i]).0.before(t) by {
                    if i < mid {
                        assert(v[i].0.before(v[mid as int].0));
                    }
                }
            }
            lo = mid + 1;
        } else if t.block < m.block || t.offset < m.offset {
            proof {
                assert forall|i: int| mid <= i < v.len() implies t.before((#[trigger] v[i]).0) by {
                    if i > mid {
                        assert(v[mid as int].0.before(v[i].0));
                    }
                }
            }
            hi = mid;
        } else {
            proof {
                assert(v[mid as int].0 == x@.0);
            }
            return;
        }
    }
    let ghost xv = x@;
    out.insert(lo, x);
    proof {
        let w = record_views(out@);
        assert(w =~= v.insert(lo as int, xv));
        assert forall|i: int, j: int| 0 <= i < j < w.len() implies (#[trigger] w[i]).0.before((#[trigger] w[j]).0) by {
            let a = if i < lo { i } else { i - 1 };
            let b = if j < lo { j } else { j - 1 };
            if i != lo && j != lo {
                assert(v[a].0.before(v[b].0));
            } else if i == lo {
                assert(t.before(v[b].0));
            } else {
                assert(v[a].0.before(t));
            }
        }
        assert forall|y: RecordView| #[trigger] w.contains(y) <==> v.contains(y) || y == xv by {
            if v.contains(y) {
                let i = v.index_of(y);
                assert(w[if i < lo { i } else { i + 1 }] == y);
            }
            assert(w[lo as int] == xv);
            if w.contains(y) && y != xv {
                let i = w.index_of(y);
                assert(v[if i < lo { i } else { i - 1 }] == y);
            }
        }
    }
}

// ---------------------------------------------------------------------------
// VACUUM
// ---------------------------------------------------------------------------

/// The records among the first `n` that are not dead.
pub open spec fn alive_records(rs: Seq<RecordView>, dead: Seq<bool>, n: int) -> Seq<RecordView>
    decreases n,
{
    if n <= 0 {
        Seq::empty()
    } else if dead[n - 1] {
        alive_records(rs, dead, n - 1)
    } else {
        alive_records(rs, dead, n - 1).push(rs[n - 1])
    }
}

/// The terms of the first `n` records, summed.
pub open spec fn terms_sum(rs: Seq<RecordView>, n: int) -> int
    decreases n,
{
    if n <= 0 {
        0
    } else {
        terms_sum(rs, n - 1) + rs[n - 1].1.len()
    }
}

/// Records that can be flushed, with grams or without: of heap tuples, no more
/// terms in them than a segment may hold, and fit for grams.
pub open spec fn flushable(rs: Seq<RecordView>, grams: bool) -> bool {
    &&& rs.len() > 0
    &&& forall|i: int| 0 <= i < rs.len() ==> (#[trigger] rs[i]).0.valid() && rs[i].0.block < u32::MAX
    &&& size_limit((if grams { MAX_GRAM_TERM as int } else { 1 }) * terms_sum(rs, rs.len() as int))
    &&& forall|i: int, j: int| 0 <= i < rs.len() && 0 <= j < rs[i].1.len() ==> takes(grams, #[trigger] rs[i].1[j])
    &&& u32::MAX * 512 + 0x1_0000 <= usize::MAX
}

/// Whether [`flush_segment`] takes the records.
pub fn can_flush(records: &Vec<Record>, grams: bool) -> (r: bool)
    requires
        u32::MAX * 512 + 0x1_0000 <= usize::MAX,
    ensures
        r == flushable(record_views(records@), grams),
{
    let ghost v = record_views(records@);
    let mut sum: u128 = 0;
    let mut i: usize = 0;
    while i < records.len()
        invariant
            v == record_views(records@),
            v.len() == records@.len(),
            i <= v.len(),
            forall|k: int| 0 <= k < i ==> (#[trigger] v[k]).0.valid() && v[k].0.block < u32::MAX,
            sum == terms_sum(v, i as int),
            sum <= i * 0xFFFF_FFFF_FFFF_FFFF,
            forall|a: int, b: int| 0 <= a < i && 0 <= b < v[a].1.len() ==> takes(grams, #[trigger] v[a].1[b]),
        decreases v.len() - i,
    {
        proof {
            assert(v[i as int] == records@[i as int]@);
        }
        let tid: Tid = records[i].tid;
        if tid.offset < 1 || tid.offset > MAX_OFFSET || tid.block == u32::MAX {
            proof {
                assert(!(v[i as int].0.valid() && v[i as int].0.block < u32::MAX));
            }
            return false;
        }
        let bad: Option<usize> = unfit(&records[i].terms, grams);
        if let Some(b) = bad {
            proof {
                assert(v[i as int].1[b as int] == records@[i as int].terms@[b as int]@);
            }
            return false;
        }
        proof {
            assert forall|a: int, b: int| 0 <= a < i + 1 && 0 <= b < v[a].1.len() implies takes(grams, #[trigger] v[a].1[b]) by {
                if a == i {
                    assert(v[a].1[b] == records@[a].terms@[b]@);
                }
            }
        }
        sum = sum + records[i].terms.len() as u128;
        i = i + 1;
    }
    proof {
        let p = terms_sum(v, v.len() as int);
        let w = if grams { MAX_GRAM_TERM as int } else { 1int };
        assert(w * p == if grams { p * 64 } else { p }) by (nonlinear_arith)
            requires
                w == if grams { 64int } else { 1int },
        ;
    }
    if sum > 0x40_0000_0000_0000 {
        return false;
    }
    records.len() > 0 && within_limit(if grams {
        sum * 64
    } else {
        sum
    })
}

/// The first term that a builder would not take.
fn unfit(terms: &Vec<String>, grams: bool) -> (r: Option<usize>)
    ensures
        match r {
            Some(i) => i < terms@.len() && !takes(grams, terms@[i as int]@),
            None => forall|i: int| 0 <= i < terms@.len() ==> takes(grams, (#[trigger] terms@[i])@),
        },
{
    let mut i: usize = 0;
    while i < terms.len()
        invariant
            i <= terms@.len(),
            forall|k: int| 0 <= k < i ==> takes(grams, (#[trigger] terms@[k])@),
        decreases terms@.len() - i,
    {
        let cs: Vec<char> = chars_of(terms[i].as_str());
        if grams && (cs.len() > MAX_GRAM_TERM || (cs.len() > 0 && cs[0] == GRAM_MARK)) {
            return Some(i);
        }
        i = i + 1;
    }
    None
}

/// The segment holds the first record of every tuple.
pub open spec fn holds_records(s: Segment, rs: Seq<RecordView>) -> bool {
    &&& forall|tid: Tid| #[trigger] s.indexed(tid) <==> exists|x: RecordView| #[trigger] first_of_tid(rs, x) && x.0 == tid
    &&& forall|t: Seq<char>, tid: Tid| #[trigger] s.has(t, tid) <==> exists|x: RecordView| #[trigger] first_of_tid(rs, x) && x.0 == tid && x.1.contains(t)
}

/// The segment that a flush makes of the pending records.
pub fn flush_segment(records: Vec<Record>, grams: bool) -> (r: Segment)
    requires
        flushable(record_views(records@), grams),
    ensures
        r.wf(),
        r.spec_meta().grams == grams,
        holds_records(r, record_views(records@)),
{
    let ghost all = record_views(records@);
    let rs: Vec<Record> = flush_order(records);
    let ghost v = record_views(rs@);
    proof {
        lemma_first_exists(all, 0);
        let x = all[0];
        let y = choose|y: RecordView| #[trigger] first_of_tid(all, y) && y.0 == x.0;
        assert(v.contains(y));
        assert forall|z: RecordView| #[trigger] v.contains(z) implies all.contains(z) by {
            assert(first_of_tid(all, z));
        }
        lemma_some_sum(all, v);
        assert forall|i: int| 0 <= i < v.len() implies (#[trigger] v[i]).0.valid() && v[i].0.block < u32::MAX by {
            assert(v.contains(v[i]));
            let k = all.index_of(v[i]);
            assert(all[k] == v[i]);
        }
        assert forall|a: int, c: int| 0 <= a < v.len() && 0 <= c < v[a].1.len() implies takes(grams, #[trigger] v[a].1[c]) by {
            assert(v.contains(v[a]));
            let k = all.index_of(v[a]);
            assert(takes(grams, all[k].1[c]));
        }
        assert(v.len() > 0);
        assert(v[0] == rs@[0]@);
    }
    let mut b: SegmentBuilder = SegmentBuilder::open_ended(rs[0].tid.block).with_grams(grams);
    let mut i: usize = 0;
    let ghost w = b.weight();
    proof {
        lemma_scaled(w, terms_sum(v, v.len() as int), terms_sum(all, all.len() as int));
    }
    while i < rs.len()
        invariant
            v == record_views(rs@),
            v.len() == rs@.len(),
            i <= v.len(),
            v.len() > 0,
            tids_ascend(v),
            size_limit(w * terms_sum(v, v.len() as int)),
            w == b.weight(),
            w >= 0,
            b.spec_grams() == grams,
            forall|a: int, c: int| 0 <= a < v.len() && 0 <= c < v[a].1.len() ==> takes(grams, #[trigger] v[a].1[c]),
            forall|k: int| 0 <= k < v.len() ==> (#[trigger] v[k]).0.valid() && v[k].0.block < u32::MAX,
            b.wf(),
            b.range().0 == v[0].0.block,
            b.range().1 == u32::MAX,
            b.docs().len() == i,
            forall|k: int| 0 <= k < i ==> #[trigger] b.docs()[k] == (v[k].0, v[k].1.to_set()),
            b.size() <= w * terms_sum(v, i as int),
        decreases v.len() - i,
    {
        let ghost was = b.docs();
        proof {
            assert(v[i as int] == rs@[i as int]@);
            lemma_terms_sum(v, i + 1, v.len() as int);
            lemma_scaled(w, terms_sum(v, i + 1), terms_sum(v, v.len() as int));
            assert(w * terms_sum(v, i + 1) == w * terms_sum(v, i as int) + w * v[i as int].1.len()) by (nonlinear_arith)
                requires
                    terms_sum(v, i + 1) == terms_sum(v, i as int) + v[i as int].1.len(),
            ;
            assert forall|k: int| 0 <= k < rs@[i as int].terms@.len() implies takes(grams, (#[trigger] rs@[i as int].terms@[k])@) by {
                assert(v[i as int].1[k] == rs@[i as int].terms@[k]@);
            }
            if i > 0 {
                assert(v[0].0 == v[i as int].0 || v[0].0.before(v[i as int].0));
                assert(v[i - 1].0.before(v[i as int].0));
                assert(was.last() == was[i - 1]);
            }
        }
        b.add_terms(rs[i].tid, &rs[i].terms);
        proof {
            assert forall|k: int| 0 <= k < i + 1 implies #[trigger] b.docs()[k] == (v[k].0, v[k].1.to_set()) by {
                if k < i {
                    assert(b.docs()[k] == was[k]);
                }
            }
        }
        i = i + 1;
    }
    let ghost docs = b.docs();
    let r: Segment = b.finish();
    proof {
        assert forall|tid: Tid| #[trigger] r.indexed(tid) <==> exists|x: RecordView| #[trigger] first_of_tid(all, x) && x.0 == tid by {
            assert(r.indexed(tid) <==> doc_added(docs, tid));
            if doc_added(docs, tid) {
                let k = choose|k: int| 0 <= k < docs.len() && (#[trigger] docs[k]).0 == tid;
                assert(v.contains(v[k]));
                assert(first_of_tid(all, v[k]));
            }
            if exists|x: RecordView| #[trigger] first_of_tid(all, x) && x.0 == tid {
                let x = choose|x: RecordView| #[trigger] first_of_tid(all, x) && x.0 == tid;
                assert(v.contains(x));
                let k = v.index_of(x);
                assert(docs[k].0 == tid);
            }
        }
        assert forall|t: Seq<char>, tid: Tid| #[trigger] r.has(t, tid) <==> exists|x: RecordView| #[trigger] first_of_tid(all, x) && x.0 == tid && x.1.contains(t) by {
            assert(r.has(t, tid) <==> doc_has(docs, t, tid));
            if doc_has(docs, t, tid) {
                let k = choose|k: int| 0 <= k < docs.len() && (#[trigger] docs[k]).0 == tid && docs[k].1.contains(t);
                assert(v.contains(v[k]));
                assert(first_of_tid(all, v[k]));
            }
            if exists|x: RecordView| #[trigger] first_of_tid(all, x) && x.0 == tid && x.1.contains(t) {
                let x = choose|x: RecordView| #[trigger] first_of_tid(all, x) && x.0 == tid && x.1.contains(t);
                assert(v.contains(x));
                let k = v.index_of(x);
                assert(docs[k].0 == tid && docs[k].1.contains(t));
            }
        }
    }
    r
}

proof fn lemma_sum_same(a: Seq<RecordView>, b: Seq<RecordView>, n: int)
    requires
        forall|i: int| 0 <= i < n ==> a[i] == b[i],
    ensures
        terms_sum(a, n) == terms_sum(b, n),
    decreases n,
{
    if n > 0 {
        lemma_sum_same(a, b, n - 1);
        assert(a[n - 1] == b[n - 1]);
    }
}

/// Without record `i`.
proof fn lemma_sum_remove(a: Seq<RecordView>, i: int, n: int)
    requires
        0 <= i < n <= a.len(),
    ensures
        terms_sum(a, n) == terms_sum(a.remove(i), n - 1) + a[i].1.len(),
    decreases n,
{
    let b = a.remove(i);
    if i == n - 1 {
        lemma_sum_same(a, b, n - 1);
    } else {
        lemma_sum_remove(a, i, n - 1);
        assert(b[n - 2] == a[n - 1]);
    }
}

/// Some of the records, in order, have no more terms than all of them.
proof fn lemma_some_sum(rs: Seq<RecordView>, some: Seq<RecordView>)
    requires
        tids_ascend(some),
        forall|x: RecordView| #[trigger] some.contains(x) ==> rs.contains(x),
    ensures
        terms_sum(some, some.len() as int) <= terms_sum(rs, rs.len() as int),
    decreases rs.len(),
{
    if rs.len() == 0 {
        if some.len() > 0 {
            assert(some.contains(some[0]));
        }
    } else {
        let n = rs.len() as int;
        let (last, rest) = (rs.last(), rs.drop_last());
        lemma_sum_same(rs, rest, n - 1);
        let less = if some.contains(last) {
            some.remove(some.index_of(last))
        } else {
            some
        };
        if some.contains(last) {
            lemma_sum_remove(some, some.index_of(last), some.len() as int);
        }
        let i = some.index_of(last);
        assert(tids_ascend(less)) by {
            assert forall|a: int, b: int| 0 <= a < b < less.len() implies (#[trigger] less[a]).0.before((#[trigger] less[b]).0) by {
                if some.contains(last) {
                    let (c, d) = (if a < i { a } else { a + 1 }, if b < i { b } else { b + 1 });
                    assert(less[a] == some[c] && less[b] == some[d]);
                }
            }
        }
        assert forall|x: RecordView| #[trigger] less.contains(x) implies rest.contains(x) by {
            let a = less.index_of(x);
            if some.contains(last) {
                let c = if a < i { a } else { a + 1 };
                assert(some[c] == x);
                if c < i {
                    assert(some[c].0.before(some[i].0));
                } else {
                    assert(some[i].0.before(some[c].0));
                }
                assert(x != last);
            }
            assert(some.contains(x));
            let k = rs.index_of(x);
            assert(rest[k] == x);
        }
        lemma_some_sum(rest, less);
    }
}

proof fn lemma_scaled(w: int, a: int, b: int)
    requires
        0 <= w,
        a <= b,
    ensures
        w * a <= w * b,
{
    assert(w * a <= w * b) by (nonlinear_arith)
        requires
            0 <= w,
            a <= b,
    ;
}

proof fn lemma_terms_sum(rs: Seq<RecordView>, a: int, b: int)
    requires
        0 <= a <= b <= rs.len(),
    ensures
        0 <= terms_sum(rs, a) <= terms_sum(rs, b),
    decreases b,
{
    if a < b {
        lemma_terms_sum(rs, a, b - 1);
    } else if b > 0 {
        lemma_terms_sum(rs, a - 1, b - 1);
    }
}

/// Every tuple with a record has a first one.
proof fn lemma_first_exists(rs: Seq<RecordView>, i: int)
    requires
        0 <= i < rs.len(),
    ensures
        exists|y: RecordView| #[trigger] first_of_tid(rs, y) && y.0 == rs[i].0,
    decreases i,
{
    if exists|j: int| 0 <= j < i && (#[trigger] rs[j]).0 == rs[i].0 {
        let j = choose|j: int| 0 <= j < i && (#[trigger] rs[j]).0 == rs[i].0;
        lemma_first_exists(rs, j);
    } else {
        assert(first_of_tid(rs, rs[i]));
    }
}

/// How many of the first `n` are dead.
pub open spec fn count_dead(dead: Seq<bool>, n: int) -> int
    decreases n,
{
    if n <= 0 {
        0
    } else {
        count_dead(dead, n - 1) + (if dead[n - 1] { 1int } else { 0int })
    }
}

/// What a bulk delete does with the pending list and the metapage.
pub struct BulkDelete {
    /// Ids of segments vacuumed in the first pass.
    pub done: Vec<u32>,
    pub removed: u64,
    pub remaining: u64,
}

/// What is left of the pending list.
pub struct KeptRecords {
    /// The new stream, if any record went.
    pub rewrite: Option<Vec<u8>>,
    pub count: u64,
}

impl BulkDelete {
    pub fn new() -> (r: Self)
        ensures
            r.done@.len() == 0,
            r.removed == 0,
            r.remaining == 0,
    {
        BulkDelete { done: Vec::new(), removed: 0, remaining: 0 }
    }

    /// The metapage once the pass is through: always a new generation, since
    /// liveness pages changed and scans must reload them.
    pub fn installed(&self, meta: &mut Meta)
        requires
            old(meta).generation < u64::MAX,
        ensures
            final(meta).generation == old(meta).generation + 1,
            final(meta).segments@ == old(meta).segments@,
            final(meta).retired@ == old(meta).retired@,
            final(meta).next_segment_id == old(meta).next_segment_id,
            same_backlog(*final(meta), *old(meta)),
    {
        meta.generation = meta.generation + 1;
    }

    /// Clear the liveness bits of a segment's dead tuples: `bits` are the set
    /// bits of `live` and `dead` says which of their tuples are.
    pub fn vacuum_segment(&mut self, id: u32, live: &[u64], bits: &[usize], dead: &[bool]) -> (r: Vec<u64>)
        requires
            bits@.len() == dead@.len(),
            forall|i: int| 0 <= i < bits@.len() ==> (#[trigger] bits@[i]) < live@.len() * 64,
            old(self).removed + bits@.len() <= u64::MAX,
            old(self).remaining + bits@.len() <= u64::MAX,
        ensures
            r@.len() == live@.len(),
            forall|b: int| 0 <= b < live@.len() * 64 ==> (#[trigger] bit(r@, b) <==> bit(live@, b) && !exists|i: int|
                0 <= i < bits@.len() && #[trigger] bits@[i] == b && dead@[i]),
            final(self).removed == old(self).removed + count_dead(dead@, dead@.len() as int),
            final(self).remaining == old(self).remaining + dead@.len() - count_dead(dead@, dead@.len() as int),
            final(self).done@ == old(self).done@.push(id),
    {
        let mut out: Vec<u64> = vstd::slice::slice_to_vec(live);
        let mut i: usize = 0;
        let ghost before = *self;
        let n: usize = live.len();
        while i < bits.len()
            invariant
                i <= bits@.len() == dead@.len(),
                n == live@.len() == out@.len(),
                forall|k: int| 0 <= k < bits@.len() ==> (#[trigger] bits@[k]) < n * 64,
                before.removed + bits@.len() <= u64::MAX,
                before.remaining + bits@.len() <= u64::MAX,
                0 <= count_dead(dead@, i as int) <= i,
                self.removed == before.removed + count_dead(dead@, i as int),
                self.remaining == before.remaining + i - count_dead(dead@, i as int),
                self.done@ == before.done@,
                forall|b: int| 0 <= b < n * 64 ==> (#[trigger] bit(out@, b) <==> bit(live@, b) && !exists|k: int|
                    0 <= k < i && #[trigger] bits@[k] == b && dead@[k]),
            decreases bits@.len() - i,
        {
            let ghost was = out@;
            if dead[i] {
                clear_bit(&mut out, bits[i]);
                self.removed = self.removed + 1;
            } else {
                self.remaining = self.remaining + 1;
            }
            proof {
                assert forall|b: int| 0 <= b < n * 64 implies (#[trigger] bit(out@, b) <==> bit(live@, b)
                    && !exists|k: int| 0 <= k < i + 1 && #[trigger] bits@[k] == b && dead@[k]) by {
                    assert(bit(was, b) <==> bit(live@, b) && !exists|k: int| 0 <= k < i && #[trigger] bits@[k] == b
                        && dead@[k]);
                    if dead@[i as int] && bits@[i as int] == b {
                        assert(0 <= i < i + 1 && bits@[i as int] == b && dead@[i as int]);
                    } else {
                        if exists|k: int| 0 <= k < i + 1 && #[trigger] bits@[k] == b && dead@[k] {
                            let k = choose|k: int| 0 <= k < i + 1 && #[trigger] bits@[k] == b && dead@[k];
                            assert(0 <= k < i && bits@[k] == b && dead@[k]);
                        }
                        if exists|k: int| 0 <= k < i && #[trigger] bits@[k] == b && dead@[k] {
                            let k = choose|k: int| 0 <= k < i && #[trigger] bits@[k] == b && dead@[k];
                            assert(0 <= k < i + 1 && bits@[k] == b && dead@[k]);
                        }
                    }
                }
            }
            i = i + 1;
        }
        self.done.push(id);
        out
    }

    /// The segments left for the second pass: those flushed meanwhile.
    pub fn second_pass(&self, meta: &Meta) -> (r: Vec<SegmentRef>)
        ensures
            r@ == not_done(meta.segments@, self.done@, meta.segments@.len() as int),
    {
        let mut out: Vec<SegmentRef> = Vec::new();
        let mut i: usize = 0;
        while i < meta.segments.len()
            invariant
                i <= meta.segments@.len(),
                out@ == not_done(meta.segments@, self.done@, i as int),
            decreases meta.segments@.len() - i,
        {
            let s: SegmentRef = meta.segments[i];
            let mut hit: bool = false;
            let mut j: usize = 0;
            while j < self.done.len()
                invariant
                    j <= self.done@.len(),
                    hit == self.done@.take(j as int).contains(s.id),
                decreases self.done@.len() - j,
            {
                let ghost was = self.done@.take(j as int);
                if self.done[j] == s.id {
                    hit = true;
                }
                j = j + 1;
                proof {
                    let now = self.done@.take(j as int);
                    assert(now =~= was.push(self.done@[j - 1]));
                    if was.contains(s.id) {
                        assert(now[was.index_of(s.id)] == s.id);
                    }
                    assert(now[j - 1] == self.done@[j - 1]);
                    if now.contains(s.id) && self.done@[j - 1] != s.id {
                        assert(was[now.index_of(s.id)] == s.id);
                    }
                }
            }
            proof {
                assert(self.done@.take(j as int) =~= self.done@);
            }
            if !hit {
                out.push(s);
            }
            i = i + 1;
        }
        out
    }

    /// The pending list without its dead records: a new stream if any went.
    pub fn vacuum_pending(&mut self, records: &Vec<Record>, dead: &[bool]) -> (r: KeptRecords)
        requires
            records@.len() == dead@.len(),
            old(self).removed + records@.len() <= u64::MAX,
            old(self).remaining + records@.len() <= u64::MAX,
        ensures
            ({
                let left = alive_records(record_views(records@), dead@, records@.len() as int);
                &&& r.count == left.len()
                &&& r.rewrite is None <==> count_dead(dead@, dead@.len() as int) == 0
                &&& r.rewrite is Some ==> r.rewrite->0@ == crate::pending::stream_bytes(left)
            }),
            final(self).removed == old(self).removed + count_dead(dead@, dead@.len() as int),
            final(self).remaining == old(self).remaining + records@.len() - count_dead(dead@, dead@.len() as int),
            final(self).done@ == old(self).done@,
    {
        let ghost rs = record_views(records@);
        let mut out: Vec<u8> = Vec::new();
        let mut count: u64 = 0;
        let mut i: usize = 0;
        let ghost before = *self;
        while i < records.len()
            invariant
                i <= records@.len() == dead@.len(),
                rs == record_views(records@),
                before.removed + records@.len() <= u64::MAX,
                before.remaining + records@.len() <= u64::MAX,
                0 <= count_dead(dead@, i as int) <= i,
                count == i - count_dead(dead@, i as int),
                count == alive_records(rs, dead@, i as int).len(),
                out@ == crate::pending::stream_bytes(alive_records(rs, dead@, i as int)),
                self.removed == before.removed + count_dead(dead@, i as int),
                self.remaining == before.remaining + i - count_dead(dead@, i as int),
                self.done@ == before.done@,
            decreases records@.len() - i,
        {
            if dead[i] {
                self.removed = self.removed + 1;
            } else {
                let r: &Record = &records[i];
                let b: Vec<u8> = encode(r.tid, r.terms.as_slice());
                put_bytes(&mut out, b.as_slice());
                proof {
                    assert(rs[i as int] == r@);
                    let next = alive_records(rs, dead@, i + 1);
                    assert(next.drop_last() =~= alive_records(rs, dead@, i as int));
                    assert(next.last() == r@);
                }
                count = count + 1;
                self.remaining = self.remaining + 1;
            }
            i = i + 1;
        }
        if count as usize == records.len() {
            KeptRecords { rewrite: None, count }
        } else {
            KeptRecords { rewrite: Some(out), count }
        }
    }
}

/// The segments among the first `n` whose ids are not in `done`.
pub open spec fn not_done(segs: Seq<SegmentRef>, done: Seq<u32>, n: int) -> Seq<SegmentRef>
    decreases n,
{
    if n <= 0 {
        Seq::empty()
    } else if done.contains(segs[n - 1].id) {
        not_done(segs, done, n - 1)
    } else {
        not_done(segs, done, n - 1).push(segs[n - 1])
    }
}

/// The pages of merged-away segments are about to be freed: the chains, and
/// the metapage without them.
pub fn free_retired(meta: &mut Meta) -> (r: Vec<(u32, u32)>)
    ensures
        r@ == old(meta).retired@,
        final(meta).retired@.len() == 0,
        final(meta).segments@ == old(meta).segments@,
        final(meta).next_segment_id == old(meta).next_segment_id,
        final(meta).generation == old(meta).generation,
        same_backlog(*final(meta), *old(meta)),
{
    let mut out: Vec<(u32, u32)> = Vec::new();
    std::mem::swap(&mut out, &mut meta.retired);
    out
}

// ---------------------------------------------------------------------------
// Laws
// ---------------------------------------------------------------------------

proof fn lemma_chains_len(segs: Seq<SegmentRef>)
    ensures
        chains_of(segs).len() == 2 * segs.len(),
    decreases segs.len(),
{
    if segs.len() > 0 {
        lemma_chains_len(segs.drop_last());
    }
}

proof fn lemma_kept_len(segs: Seq<SegmentRef>, gone: Seq<SegmentRef>, n: int)
    requires
        0 <= n <= segs.len(),
    ensures
        kept(segs, gone, n).len() + present(segs, gone, n) == n,
    decreases n,
{
    if n > 0 {
        lemma_kept_len(segs, gone, n - 1);
    }
}

/// The segments of a tier are among the segments.
proof fn lemma_in_tier(segs: Seq<SegmentRef>, t: int, n: int)
    requires
        0 <= n <= segs.len(),
    ensures
        forall|x: SegmentRef| #[trigger] in_tier(segs, t, n).contains(x) ==> segs.take(n).contains(x),
        in_tier(segs, t, n).len() <= n,
    decreases n,
{
    if n > 0 {
        lemma_in_tier(segs, t, n - 1);
        let (all, less) = (in_tier(segs, t, n), in_tier(segs, t, n - 1));
        assert forall|x: SegmentRef| #[trigger] all.contains(x) implies segs.take(n).contains(x) by {
            let i = all.index_of(x);
            if i < less.len() {
                assert(less.contains(less[i]));
                let k = segs.take(n - 1).index_of(x);
                assert(segs.take(n)[k] == x);
            } else {
                assert(segs.take(n)[n - 1] == x);
            }
        }
    }
}

/// Every member of a group taken from the first segments is present there.
proof fn lemma_group_present(segs: Seq<SegmentRef>, t: int, n: int, g: Seq<SegmentRef>)
    requires
        0 <= n <= segs.len(),
        forall|i: int| 0 <= i < in_tier(segs, t, n).len() && i < MERGE_FACTOR ==> g.contains(#[trigger] in_tier(segs, t, n)[i]),
    ensures
        present(segs, g, n) >= (if in_tier(segs, t, n).len() < MERGE_FACTOR { in_tier(segs, t, n).len() as int } else { MERGE_FACTOR as int }),
    decreases n,
{
    if n > 0 {
        let (all, less) = (in_tier(segs, t, n), in_tier(segs, t, n - 1));
        assert forall|i: int| 0 <= i < less.len() && i < MERGE_FACTOR implies g.contains(#[trigger] less[i]) by {
            assert(all[i] == less[i]);
        }
        lemma_group_present(segs, t, n - 1, g);
        if all.len() > less.len() && less.len() < MERGE_FACTOR {
            let x = all[less.len() as int];
            assert(g.contains(x));
            let k = g.index_of(x);
            assert(g[k].id == segs[n - 1].id);
            assert(has_id(g, segs[n - 1].id));
        }
    }
}

/// Merging a full tier never makes the metapage overflow.
pub proof fn merging_keeps_fit(before: Meta, after: Meta, t: int, merged: Option<SegmentRef>)
    requires
        before.spec_fits(),
        in_tier(before.segments@, t, before.segments@.len() as int).len() >= MERGE_FACTOR,
        merged_table(before, in_tier(before.segments@, t, before.segments@.len() as int).take(MERGE_FACTOR as int), merged, after),
    ensures
        after.spec_fits(),
        after.segments@.len() < before.segments@.len(),
{
    let segs = before.segments@;
    let n = segs.len() as int;
    let all = in_tier(segs, t, n);
    let g = all.take(MERGE_FACTOR as int);
    assert forall|i: int| 0 <= i < all.len() && i < MERGE_FACTOR implies g.contains(#[trigger] all[i]) by {
        assert(g[i] == all[i]);
    }
    lemma_group_present(segs, t, n, g);
    lemma_kept_len(segs, g, n);
    lemma_chains_len(g);
}

/// A compaction keeps every segment that was flushed meanwhile.
pub proof fn compaction_keeps_new_segments(meta: Meta, snap: Seq<SegmentRef>, merged: Option<SegmentRef>, after: Meta, i: int)
    requires
        compacted(meta, snap, merged, after),
        0 <= i < meta.segments@.len(),
        !has_id(snap, meta.segments@[i].id),
    ensures
        after.segments@.contains(meta.segments@[i]),
{
    let rest = kept(meta.segments@, snap, meta.segments@.len() as int);
    lemma_kept_has(meta.segments@, snap, meta.segments@.len() as int, i);
    let k = rest.index_of(meta.segments@[i]);
    assert(after.segments@[k] == meta.segments@[i]);
}

proof fn lemma_kept_has(segs: Seq<SegmentRef>, gone: Seq<SegmentRef>, n: int, i: int)
    requires
        0 <= i < n <= segs.len(),
        !has_id(gone, segs[i].id),
    ensures
        kept(segs, gone, n).contains(segs[i]),
    decreases n,
{
    let all = kept(segs, gone, n);
    if i < n - 1 {
        lemma_kept_has(segs, gone, n - 1, i);
        let less = kept(segs, gone, n - 1);
        let k = less.index_of(segs[i]);
        assert(all[k] == segs[i]);
    } else {
        assert(all[all.len() - 1] == segs[i]);
    }
}

/// Flushing changes no answer: a tuple with one pending record matches the
/// same plans in the segment that the flush makes.
pub proof fn flushing_keeps_matches(s: Segment, rs: Seq<RecordView>, i: int, p: PlanView)
    requires
        holds_records(s, rs),
        0 <= i < rs.len(),
        forall|j: int| 0 <= j < rs.len() && j != i ==> (#[trigger] rs[j]).0 != rs[i].0,
    ensures
        plan_matches(p, s.terms_at(rs[i].0)) == plan_matches(p, rs[i].1.to_set()),
{
    let tid = rs[i].0;
    assert(first_of_tid(rs, rs[i]));
    assert forall|t: Seq<char>| s.terms_at(tid).contains(t) <==> rs[i].1.to_set().contains(t) by {
        assert(s.has(t, tid) <==> exists|x: RecordView| #[trigger] first_of_tid(rs, x) && x.0 == tid && x.1.contains(t));
        if s.has(t, tid) {
            let x = choose|x: RecordView| #[trigger] first_of_tid(rs, x) && x.0 == tid && x.1.contains(t);
            let k = choose|k: int| 0 <= k < rs.len() && #[trigger] rs[k] == x && forall|j: int| 0 <= j < k ==> (#[trigger] rs[j]).0 != x.0;
            assert(k == i);
        }
    }
    assert(s.terms_at(tid) =~= rs[i].1.to_set());
}

/// Different tuples of a segment have different liveness bits.
pub proof fn liveness_bits_are_distinct(d: Widths, a: Tid, b: Tid)
    requires
        d.holds(a),
        d.holds(b),
    ensures
        a.before(b) ==> d.tid_bit(a) < d.tid_bit(b),
        d.tid_bit(a) == d.tid_bit(b) ==> a == b,
{
    lemma_bits_order(d, a, b);
    lemma_bits_order(d, b, a);
}

proof fn lemma_bits_order(d: Widths, a: Tid, b: Tid)
    requires
        d.holds(a),
        d.holds(b),
    ensures
        a.before(b) ==> d.tid_bit(a) < d.tid_bit(b),
{
    if a.block < b.block {
        lemma_below_step(d, a.block as int);
        lemma_below_mono(d, a.block + 1, b.block as int);
    }
}

/// VACUUM hides exactly the dead: of the tuples `listed` as live, with their
/// bits, those found dead are live no longer, and no other tuple changes.
pub proof fn vacuum_hides_dead(d: Widths, live: Seq<u64>, listed: Seq<(u64, Tid)>, bits: Seq<usize>, dead: Seq<bool>, after: Seq<u64>, tid: Tid)
    requires
        forall|k: int| 0 <= k < listed.len() ==> set_tid(d, live, #[trigger] listed[k]),
        bits.len() == listed.len(),
        dead.len() == listed.len(),
        forall|k: int| 0 <= k < listed.len() ==> #[trigger] bits[k] == listed[k].0,
        forall|b: int| 0 <= b < live.len() * 64 ==> (#[trigger] bit(after, b) <==> bit(live, b) && !exists|i: int|
            0 <= i < bits.len() && #[trigger] bits[i] == b && dead[i]),
        d.holds(tid),
        0 <= d.tid_bit(tid) < live.len() * 64,
    ensures
        bit(after, d.tid_bit(tid)) <==> bit(live, d.tid_bit(tid)) && !exists|k: int| 0 <= k < listed.len() && (#[trigger] listed[k]).1 == tid && dead[k],
{
    let b = d.tid_bit(tid);
    if exists|i: int| 0 <= i < bits.len() && #[trigger] bits[i] == b && dead[i] {
        let i = choose|i: int| 0 <= i < bits.len() && #[trigger] bits[i] == b && dead[i];
        assert(set_tid(d, live, listed[i]));
        liveness_bits_are_distinct(d, listed[i].1, tid);
        assert(listed[i].1 == tid && dead[i]);
    }
    if exists|k: int| 0 <= k < listed.len() && (#[trigger] listed[k]).1 == tid && dead[k] {
        let k = choose|k: int| 0 <= k < listed.len() && (#[trigger] listed[k]).1 == tid && dead[k];
        assert(set_tid(d, live, listed[k]));
        assert(bits[k] == b && dead[k]);
    }
}

/// The sources once the pending list was flushed into segment `s`.
pub open spec fn flushed(before: Sources<'_>, after: Sources<'_>, s: Segment, rs: Seq<RecordView>) -> bool {
    let n = before.segments@.len() as int;
    &&& holds_records(s, rs)
    &&& before.pending@.len() == rs.len()
    &&& forall|j: int| 0 <= j < rs.len() ==> (#[trigger] before.pending@[j]).tid == rs[j].0 && before.pending@[j].term_set() == rs[j].1.to_set()
    &&& after.pending@.len() == 0
    &&& after.segments@.len() == n + 1
    &&& forall|i: int| 0 <= i < n ==> #[trigger] after.segments@[i] == before.segments@[i]
    &&& *after.segments@[n].0 == s
    &&& forall|t: Seq<char>, tid: Tid| #[trigger] s.has(t, tid) ==> alive(s.dir(), after.segments@[n].1, tid)
}

/// A flush changes no search: with one pending record a tuple, the same
/// tuples match before and after.
pub proof fn flush_changes_no_search(before: Sources<'_>, after: Sources<'_>, s: Segment, rs: Seq<RecordView>, p: PlanView, tid: Tid)
    requires
        flushed(before, after, s, rs),
        runnable(p),
        forall|i: int, j: int| 0 <= i < j < rs.len() ==> (#[trigger] rs[i]).0 != (#[trigger] rs[j]).0,
    ensures
        source_hits(before, p, tid) <==> source_hits(after, p, tid),
{
    let n = before.segments@.len() as int;
    let own = s.terms_at(tid);
    if source_hits(before, p, tid) {
        if exists|i: int, terms: Set<Seq<char>>| #[trigger] before.indexed(i, tid, terms) && plan_matches(p, terms) {
            let (i, terms) = choose|i: int, terms: Set<Seq<char>>| #[trigger] before.indexed(i, tid, terms) && plan_matches(p, terms);
            assert(after.segments@[i] == before.segments@[i]);
            assert(after.indexed(i, tid, terms));
        } else {
            let (j, terms) = choose|j: int, terms: Set<Seq<char>>| #[trigger] before.waits(j, tid, terms) && plan_matches(p, terms);
            assert(before.pending@[j].tid == rs[j].0);
            flushing_keeps_matches(s, rs, j, p);
            let t = lemma_some_term(own, p);
            assert(s.has(t, tid));
            assert(after.indexed(n, tid, own));
        }
    }
    if source_hits(after, p, tid) {
        let (i, terms) = choose|i: int, terms: Set<Seq<char>>| #[trigger] after.indexed(i, tid, terms) && plan_matches(p, terms);
        if i < n {
            assert(after.segments@[i] == before.segments@[i]);
            assert(before.indexed(i, tid, terms));
        } else {
            assert(terms == own);
            let t = lemma_some_term(own, p);
            assert(s.has(t, tid));
            let x = choose|x: RecordView| #[trigger] first_of_tid(rs, x) && x.0 == tid && x.1.contains(t);
            let k = choose|k: int| 0 <= k < rs.len() && #[trigger] rs[k] == x && forall|j: int| 0 <= j < k ==> (#[trigger] rs[j]).0 != x.0;
            flushing_keeps_matches(s, rs, k, p);
            assert(before.pending@[k].tid == rs[k].0);
            assert(before.waits(k, tid, before.pending@[k].term_set()));
        }
    }
}

/// The sources once the segments `group` were merged into `m`.
pub open spec fn merged_into(before: Sources<'_>, after: Sources<'_>, group: Seq<Input<'_>>, m: Segment) -> bool {
    let n = after.segments@.len() - 1;
    &&& is_merge(m, group)
    &&& before.pending@ == after.pending@
    &&& n >= 0
    &&& *after.segments@[n].0 == m
    &&& forall|t: Seq<char>, tid: Tid| #[trigger] m.has(t, tid) ==> alive(m.dir(), after.segments@[n].1, tid)
    &&& forall|i: int| 0 <= i < before.segments@.len() ==> group.contains(#[trigger] before.segments@[i]) || after.segments@.take(n).contains(before.segments@[i])
    &&& forall|i: int| 0 <= i < n ==> before.segments@.contains(#[trigger] after.segments@[i])
    &&& forall|i: int| 0 <= i < group.len() ==> before.segments@.contains(#[trigger] group[i])
}

/// A merge or a compaction changes no search: if no tuple is live in two of
/// the merged segments, the same tuples match before and after.
pub proof fn merge_changes_no_search(before: Sources<'_>, after: Sources<'_>, group: Seq<Input<'_>>, m: Segment, p: PlanView, tid: Tid)
    requires
        merged_into(before, after, group, m),
        runnable(p),
        forall|i: int, j: int, t: Seq<char>, u: Seq<char>|
            0 <= i < group.len() && 0 <= j < group.len() && i != j && #[trigger] live_in(group[i], t, tid) ==> !#[trigger] live_in(group[j], u, tid),
    ensures
        source_hits(before, p, tid) <==> source_hits(after, p, tid),
{
    let n = after.segments@.len() - 1;
    if source_hits(before, p, tid) {
        if exists|i: int, terms: Set<Seq<char>>| #[trigger] before.indexed(i, tid, terms) && plan_matches(p, terms) {
            let (i, terms) = choose|i: int, terms: Set<Seq<char>>| #[trigger] before.indexed(i, tid, terms) && plan_matches(p, terms);
            let e = before.segments@[i];
            if group.contains(e) {
                let k = group.index_of(e);
                let t = lemma_some_term(e.0.terms_at(tid), p);
                assert(live_in(group[k], t, tid));
                merging_keeps_matches(m, group, k, p, tid);
                let u = lemma_some_term(m.terms_at(tid), p);
                assert(m.has(u, tid));
                assert(after.indexed(n, tid, m.terms_at(tid)));
            } else {
                let rest = after.segments@.take(n);
                let k = rest.index_of(e);
                assert(after.segments@[k] == e);
                assert(after.indexed(k, tid, terms));
            }
        } else {
            let (j, terms) = choose|j: int, terms: Set<Seq<char>>| #[trigger] before.waits(j, tid, terms) && plan_matches(p, terms);
            assert(after.pending@[j] == before.pending@[j]);
            assert(after.waits(j, tid, terms));
        }
    }
    if source_hits(after, p, tid) {
        if exists|i: int, terms: Set<Seq<char>>| #[trigger] after.indexed(i, tid, terms) && plan_matches(p, terms) {
            let (i, terms) = choose|i: int, terms: Set<Seq<char>>| #[trigger] after.indexed(i, tid, terms) && plan_matches(p, terms);
            if i < n {
                assert(before.segments@.contains(after.segments@[i]));
                let k = before.segments@.index_of(after.segments@[i]);
                assert(before.indexed(k, tid, terms));
            } else {
                let t = lemma_some_term(m.terms_at(tid), p);
                assert(m.has(t, tid));
                assert(kept_in(group, group.len() as int, t, tid));
                let j = choose|j: int| 0 <= j < group.len() && live_in(#[trigger] group[j], t, tid);
                merging_keeps_matches(m, group, j, p, tid);
                assert(before.segments@.contains(group[j]));
                let k = before.segments@.index_of(group[j]);
                assert(before.indexed(k, tid, group[j].0.terms_at(tid)));
            }
        } else {
            let (j, terms) = choose|j: int, terms: Set<Seq<char>>| #[trigger] after.waits(j, tid, terms) && plan_matches(p, terms);
            assert(after.pending@[j] == before.pending@[j]);
            assert(before.waits(j, tid, terms));
        }
    }
}

/// What a plan matches has a term.
proof fn lemma_some_term(terms: Set<Seq<char>>, p: PlanView) -> (t: Seq<char>)
    requires
        runnable(p),
        plan_matches(p, terms),
    ensures
        terms.contains(t),
{
    runnable_needs_terms(p);
    assert(exists|t: Seq<char>| terms.contains(t)) by {
        if forall|t: Seq<char>| !terms.contains(t) {
            assert(terms =~= Set::<Seq<char>>::empty());
        }
    }
    choose|t: Seq<char>| terms.contains(t)
}

// ---------------------------------------------------------------------------
// What the choices come to
// ---------------------------------------------------------------------------

proof fn lemma_tier_bounds(len: int, cap: int)
    requires
        0 <= len,
        0 < cap,
    ensures
        tier_from(len, cap) >= 0,
        len <= cap * pow(8, tier_from(len, cap) as nat),
        tier_from(len, cap) > 0 ==> len > cap * pow(8, (tier_from(len, cap) - 1) as nat),
    decreases (if len > cap { len - cap } else { 0 }),
{
    lemma_pow0(8);
    if len > cap {
        lemma_tier_bounds(len, cap * 8);
        let t = tier_from(len, cap * 8);
        lemma_pow_adds(8, 1, t as nat);
        lemma_pow1(8);
        assert(cap * 8 * pow(8, t as nat) == cap * (8 * pow(8, t as nat))) by (nonlinear_arith);
        if t > 0 {
            lemma_pow_adds(8, 1, (t - 1) as nat);
            assert(cap * 8 * pow(8, (t - 1) as nat) == cap * (8 * pow(8, (t - 1) as nat))) by (nonlinear_arith);
        }
    }
}

/// A tier holds the segments of up to eight times the size of the one below
/// it; the first holds those of up to 64 kB.
pub proof fn tiers_grow_eightfold(len: int)
    requires
        0 <= len,
    ensures
        tier_of(len) >= 0,
        len <= 65536 * pow(8, tier_of(len) as nat),
        tier_of(len) > 0 ==> len > 65536 * pow(8, (tier_of(len) - 1) as nat),
{
    lemma_tier_bounds(len, TIER_BASE as int);
}

/// A larger segment is in no lower tier.
pub proof fn tiers_go_by_size(a: int, b: int)
    requires
        0 <= a <= b,
    ensures
        tier_of(a) <= tier_of(b),
{
    lemma_tiers_go_by_size(a, b, TIER_BASE as int);
}

proof fn lemma_tiers_go_by_size(a: int, b: int, cap: int)
    requires
        0 <= a <= b,
        0 < cap,
    ensures
        tier_from(a, cap) <= tier_from(b, cap),
    decreases (if b > cap { b - cap } else { 0 }),
{
    if b > cap {
        lemma_tier_bounds(b, cap * 8);
        lemma_tiers_go_by_size(a, b, cap * 8);
    }
}

/// The candidates for a merge are the segments of one tier of up to 64 MB, in
/// the order of the table.
pub proof fn merges_take_one_tier(segs: Seq<SegmentRef>, t: int)
    ensures
        in_tier(segs, t, segs.len() as int) == segs.filter(|s: SegmentRef| s.len <= 67108864 && tier_of(s.len as int) == t),
{
    lemma_in_tier_filter(segs, t, segs.len() as int);
    assert(segs.take(segs.len() as int) =~= segs);
}

proof fn lemma_in_tier_filter(segs: Seq<SegmentRef>, t: int, n: int)
    requires
        0 <= n <= segs.len(),
    ensures
        in_tier(segs, t, n) == segs.take(n).filter(|s: SegmentRef| s.len <= 67108864 && tier_of(s.len as int) == t),
    decreases n,
{
    reveal(Seq::filter);
    if n > 0 {
        lemma_in_tier_filter(segs, t, n - 1);
        assert(segs.take(n).drop_last() =~= segs.take(n - 1));
    }
}

/// The segments that stay are those that do not go, in the order of the table.
pub proof fn others_are_kept(segs: Seq<SegmentRef>, gone: Seq<SegmentRef>)
    ensures
        kept(segs, gone, segs.len() as int) == segs.filter(
            |s: SegmentRef| forall|i: int| 0 <= i < gone.len() ==> (#[trigger] gone[i]).id != s.id,
        ),
{
    lemma_kept_filter(segs, gone, segs.len() as int);
    assert(segs.take(segs.len() as int) =~= segs);
}

proof fn lemma_kept_filter(segs: Seq<SegmentRef>, gone: Seq<SegmentRef>, n: int)
    requires
        0 <= n <= segs.len(),
    ensures
        kept(segs, gone, n) == segs.take(n).filter(|s: SegmentRef| forall|i: int| 0 <= i < gone.len() ==> (#[trigger] gone[i]).id != s.id),
    decreases n,
{
    reveal(Seq::filter);
    if n > 0 {
        lemma_kept_filter(segs, gone, n - 1);
        assert(segs.take(n).drop_last() =~= segs.take(n - 1));
        let s = segs[n - 1];
        if has_id(gone, s.id) {
            let i = choose|i: int| 0 <= i < gone.len() && (#[trigger] gone[i]).id == s.id;
            assert(gone[i].id == s.id);
        }
    }
}

/// Both chains of every segment are retired, and no other.
pub proof fn both_chains_are_retired(segs: Seq<SegmentRef>, c: (u32, u32))
    ensures
        chains_of(segs).len() == 2 * segs.len(),
        chains_of(segs).contains(c) <==> exists|i: int|
            0 <= i < segs.len() && (c == ((#[trigger] segs[i]).first_block, segs[i].n_blocks) || c == (segs[i].live_first, segs[i].live_blocks)),
    decreases segs.len(),
{
    if segs.len() > 0 {
        let less = segs.drop_last();
        let s = segs.last();
        let (a, b) = ((s.first_block, s.n_blocks), (s.live_first, s.live_blocks));
        both_chains_are_retired(less, c);
        let (all, old_chains) = (chains_of(segs), chains_of(less));
        assert(all =~= old_chains + seq![a, b]);
        if all.contains(c) {
            let k = all.index_of(c);
            if k < old_chains.len() {
                assert(old_chains[k] == c);
                assert(old_chains.contains(c));
                let i = choose|i: int|
                    0 <= i < less.len() && (c == ((#[trigger] less[i]).first_block, less[i].n_blocks) || c == (less[i].live_first, less[i].live_blocks));
                assert(segs[i] == less[i]);
            } else {
                assert(segs[segs.len() - 1] == s);
            }
        }
        if exists|i: int|
            0 <= i < segs.len() && (c == ((#[trigger] segs[i]).first_block, segs[i].n_blocks) || c == (segs[i].live_first, segs[i].live_blocks)) {
            let i = choose|i: int|
                0 <= i < segs.len() && (c == ((#[trigger] segs[i]).first_block, segs[i].n_blocks) || c == (segs[i].live_first, segs[i].live_blocks));
            if i < less.len() {
                assert(less[i] == segs[i]);
                let k = old_chains.index_of(c);
                assert(all[k] == c);
            } else {
                assert(all[old_chains.len() as int] == a && all[old_chains.len() as int + 1] == b);
            }
        }
    }
}

/// The largest size is that of a segment, and no segment is larger; the total
/// is what the sizes add up to.
pub proof fn sizes_are_summed(segs: Seq<SegmentRef>)
    ensures
        forall|i: int| 0 <= i < segs.len() ==> (#[trigger] segs[i]).len <= largest_len(segs, segs.len() as int),
        segs.len() > 0 ==> exists|i: int| 0 <= i < segs.len() && (#[trigger] segs[i]).len == largest_len(segs, segs.len() as int),
        total_len(segs, segs.len() as int) == segs.fold_left(0int, |sum: int, s: SegmentRef| sum + s.len as int),
{
    lemma_sizes(segs, segs.len() as int);
    assert(segs.take(segs.len() as int) =~= segs);
}

proof fn lemma_sizes(segs: Seq<SegmentRef>, n: int)
    requires
        0 <= n <= segs.len(),
    ensures
        largest_len(segs, n) >= 0,
        forall|i: int| 0 <= i < n ==> (#[trigger] segs[i]).len <= largest_len(segs, n),
        n > 0 ==> exists|i: int| 0 <= i < n && (#[trigger] segs[i]).len == largest_len(segs, n),
        total_len(segs, n) == segs.take(n).fold_left(0int, |sum: int, s: SegmentRef| sum + s.len as int),
    decreases n,
{
    if n > 0 {
        lemma_sizes(segs, n - 1);
        assert(segs.take(n).drop_last() =~= segs.take(n - 1));
        assert(segs[n - 1].len >= 0);
        if segs[n - 1].len <= largest_len(segs, n - 1) {
            if n == 1 {
                assert(segs[0].len == largest_len(segs, 1));
            } else {
                let i = choose|i: int| 0 <= i < n - 1 && (#[trigger] segs[i]).len == largest_len(segs, n - 1);
                assert(segs[i].len == largest_len(segs, n));
            }
        }
    }
}

/// The records that stay are those that are not dead, in order.
pub proof fn only_dead_records_go(rs: Seq<RecordView>, dead: Seq<bool>)
    requires
        rs.len() == dead.len(),
    ensures
        alive_records(rs, dead, rs.len() as int).len() + count_dead(dead, rs.len() as int) == rs.len(),
        forall|r: RecordView| #[trigger] alive_records(rs, dead, rs.len() as int).contains(r) <==> exists|i: int| 0 <= i < rs.len() && #[trigger] rs[i] == r && !dead[i],
{
    lemma_alive_records(rs, dead, rs.len() as int);
}

proof fn lemma_alive_records(rs: Seq<RecordView>, dead: Seq<bool>, n: int)
    requires
        rs.len() == dead.len(),
        0 <= n <= rs.len(),
    ensures
        alive_records(rs, dead, n).len() + count_dead(dead, n) == n,
        forall|r: RecordView| #[trigger] alive_records(rs, dead, n).contains(r) <==> exists|i: int| 0 <= i < n && #[trigger] rs[i] == r && !dead[i],
    decreases n,
{
    if n > 0 {
        lemma_alive_records(rs, dead, n - 1);
        let (all, less) = (alive_records(rs, dead, n), alive_records(rs, dead, n - 1));
        assert forall|r: RecordView| #[trigger] all.contains(r) <==> exists|i: int| 0 <= i < n && #[trigger] rs[i] == r && !dead[i] by {
            if all.contains(r) {
                let k = all.index_of(r);
                if k < less.len() {
                    assert(less[k] == r);
                    assert(less.contains(r));
                    let i = choose|i: int| 0 <= i < n - 1 && #[trigger] rs[i] == r && !dead[i];
                    assert(rs[i] == r && !dead[i]);
                } else {
                    assert(rs[n - 1] == r && !dead[n - 1]);
                }
            }
            if exists|i: int| 0 <= i < n && #[trigger] rs[i] == r && !dead[i] {
                let i = choose|i: int| 0 <= i < n && #[trigger] rs[i] == r && !dead[i];
                if i < n - 1 {
                    assert(less.contains(r));
                    let k = less.index_of(r);
                    assert(all[k] == r);
                } else {
                    assert(all[less.len() as int] == r);
                }
            }
        }
    }
}

} // verus!
