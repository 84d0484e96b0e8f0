//! Merging segments into one: what is left of them once the tuples that their
//! liveness bitmaps hide are gone.

use vstd::prelude::*;
use vstd::utf8::encode_utf8;
use crate::baseline::{rising, union};
use crate::dict::{bytes_less, comes_before, lemma_bytes_less_trans};
use crate::drive::{alive, is_listing, lemma_listing_len};
use crate::index::freq;
use crate::plan::{plan_accepts, plan_matches, some_accepted, Plan, PlanView};
use crate::pattern::MAX_GRAM_TERM;
use crate::segment::{distinct_sum, doc_added, doc_has, docs_ascend, is_run, run_sum, size_limit, takes, DocTerms, Segment, SegmentBuilder};
use crate::text::copy_of;
use crate::tid::{Tid, MAX_OFFSET};
use crate::tokenize::strings_view;
use crate::wire::{term_tids, tid_of_key};

verus! {

/// A segment and its liveness bitmap.
pub type Input<'a> = (&'a Segment, Option<&'a [u64]>);

/// Whether a live tuple of the segment has the term.
pub open spec fn live_in(i: Input<'_>, t: Seq<char>, tid: Tid) -> bool {
    i.0.has(t, tid) && alive(i.0.dir(), i.1, tid)
}

/// Whether one of the first `n` segments has the term in a live tuple.
pub open spec fn kept_in(inputs: Seq<Input<'_>>, n: int, t: Seq<char>, tid: Tid) -> bool {
    exists|i: int| 0 <= i < n && live_in(#[trigger] inputs[i], t, tid)
}

/// Whether the segment indexed the tuple, and it is live.
pub open spec fn live_doc(i: Input<'_>, tid: Tid) -> bool {
    i.0.indexed(tid) && alive(i.0.dir(), i.1, tid)
}

/// The live tuples of the first `n` segments, with terms or without.
pub open spec fn kept_tuples(inputs: Seq<Input<'_>>, n: int) -> Set<Tid> {
    Set::new(|tid: Tid| exists|i: int| 0 <= i < n && live_doc(#[trigger] inputs[i], tid))
}

/// A segment indexes the inputs' live tuples, with the terms that they have
/// there.
pub open spec fn is_merge(m: Segment, inputs: Seq<Input<'_>>) -> bool {
    &&& forall|t: Seq<char>, tid: Tid| #[trigger] m.has(t, tid) <==> kept_in(inputs, inputs.len() as int, t, tid)
    &&& forall|tid: Tid| #[trigger] m.indexed(tid) <==> kept_tuples(inputs, inputs.len() as int).contains(tid)
}

/// A live tuple that has a term is a live tuple.
proof fn lemma_kept(inputs: Seq<Input<'_>>, n: int, t: Seq<char>, tid: Tid)
    requires
        n <= inputs.len(),
        forall|i: int| 0 <= i < inputs.len() ==> (#[trigger] inputs[i]).0.wf(),
        kept_in(inputs, n, t, tid),
    ensures
        kept_tuples(inputs, n).contains(tid),
{
    let i = choose|i: int| 0 <= i < n && live_in(#[trigger] inputs[i], t, tid);
    inputs[i].0.lemma_has_indexed(t, tid);
    assert(live_doc(inputs[i], tid));
}

/// How many tuples the first `n` terms have, each term's counted for itself.
spec fn freqs(ts: Seq<(String, u64)>, n: int) -> int
    decreases n,
{
    if n <= 0 {
        0
    } else {
        freqs(ts, n - 1) + ts[n - 1].1
    }
}

/// The postings of the first `n` segments.
pub open spec fn postings_of(inputs: Seq<Input<'_>>, n: int) -> int
    decreases n,
{
    if n <= 0 {
        0
    } else {
        postings_of(inputs, n - 1) + inputs[n - 1].0.own_postings()
    }
}

/// Every segment stores grams.
pub open spec fn all_grams(inputs: Seq<Input<'_>>) -> bool {
    forall|i: int| 0 <= i < inputs.len() ==> (#[trigger] inputs[i]).0.spec_meta().grams
}

/// What one posting counts for.
pub open spec fn merge_weight(inputs: Seq<Input<'_>>) -> int {
    if all_grams(inputs) {
        MAX_GRAM_TERM as int
    } else {
        1
    }
}

/// Together the segments are no more than one may hold.
pub open spec fn mergeable(inputs: Seq<Input<'_>>) -> bool {
    size_limit(merge_weight(inputs) * postings_of(inputs, inputs.len() as int))
}

/// The names alone.
spec fn names_in(ts: Seq<(String, u64)>) -> Seq<Seq<char>> {
    Seq::new(ts.len(), |i: int| ts[i].0@)
}

proof fn lemma_freqs(s: Segment, ts: Seq<(String, u64)>, n: int)
    requires
        0 <= n <= ts.len(),
        forall|i: int| 0 <= i < ts.len() ==> s.values().dom().contains(encode_utf8((#[trigger] ts[i]).0@)) && ts[i].1 == freq(s, ts[i].0@),
    ensures
        freqs(ts, n) == run_sum(s.values(), s.area(), s.dir(), names_in(ts), n),
    decreases n,
{
    if n > 0 {
        lemma_freqs(s, ts, n - 1);
        assert(names_in(ts)[n - 1] == ts[n - 1].0@);
    }
}

/// A key among sorted ones.
fn find(keys: &Vec<u64>, key: u64) -> (r: usize)
    requires
        rising(keys@),
        keys@.contains(key),
    ensures
        r < keys@.len(),
        keys@[r as int] == key,
{
    let mut lo: usize = 0;
    let mut hi: usize = keys.len();
    let ghost at = keys@.index_of(key);
    while lo + 1 < hi
        invariant
            rising(keys@),
            hi <= keys@.len(),
            lo <= at < hi,
            0 <= at < keys@.len(),
            keys@[at] == key,
        decreases hi - lo,
    {
        let mid: usize = lo + (hi - lo) / 2;
        if keys[mid] <= key {
            lo = mid;
        } else {
            hi = mid;
        }
    }
    lo
}

/// Whether `key` is one of the first `n` tuples'.
spec fn key_listed(tids: Seq<Tid>, n: int, key: int) -> bool {
    exists|x: int| 0 <= x < n && (#[trigger] tids[x]).spec_key() == key
}

/// How many entries the first `n` buckets hold.
spec fn held(at: Seq<Vec<usize>>, n: int) -> int
    decreases n,
{
    if n <= 0 {
        0
    } else {
        held(at, n - 1) + at[n - 1]@.len()
    }
}

proof fn lemma_held_push(a: Seq<Vec<usize>>, b: Seq<Vec<usize>>, k: int, n: int)
    requires
        0 <= k < a.len(),
        a.len() == b.len(),
        n <= a.len(),
        b[k]@.len() == a[k]@.len() + 1,
        forall|i: int| 0 <= i < a.len() && i != k ==> (#[trigger] b[i])@ == a[i]@,
    ensures
        held(b, n) == held(a, n) + (if k < n { 1int } else { 0int }),
    decreases n,
{
    if n > 0 {
        lemma_held_push(a, b, k, n - 1);
    }
}

proof fn lemma_held_part(at: Seq<Vec<usize>>, a: int, b: int)
    requires
        0 <= a <= b <= at.len(),
    ensures
        0 <= held(at, a) <= held(at, b),
    decreases b,
{
    if a < b {
        lemma_held_part(at, a, b - 1);
    } else if b > 0 {
        lemma_held_part(at, a - 1, b - 1);
    }
}

/// Heap order is key order.
proof fn lemma_key_order(a: Tid, b: Tid)
    requires
        1 <= a.offset <= 512,
        1 <= b.offset <= 512,
    ensures
        a.before(b) <==> a.spec_key() < b.spec_key(),
        a.spec_key() == b.spec_key() ==> a == b,
        0 <= a.spec_key() < 0x200_0000_0000,
{
}

/// Add `id` to the buckets of `tids`.
fn put(at: &mut Vec<Vec<usize>>, keys: &Vec<u64>, tids: &Vec<Tid>, id: usize)
    requires
        rising(keys@),
        old(at)@.len() == keys@.len(),
        forall|x: int| 0 <= x < tids@.len() ==> 1 <= (#[trigger] tids@[x]).offset <= 512 && keys@.contains(tids@[x].spec_key() as u64),
        forall|x: int, y: int| 0 <= x < y < tids@.len() ==> (#[trigger] tids@[x]).before(#[trigger] tids@[y]),
    ensures
        final(at)@.len() == old(at)@.len(),
        forall|k: int| 0 <= k < keys@.len() ==> (#[trigger] final(at)@[k])@ == (if key_listed(tids@, tids@.len() as int, keys@[k] as int) {
            old(at)@[k]@.push(id)
        } else {
            old(at)@[k]@
        }),
        held(final(at)@, keys@.len() as int) == held(old(at)@, keys@.len() as int) + tids@.len(),
{
    let ghost start = at@;
    let mut x: usize = 0;
    while x < tids.len()
        invariant
            rising(keys@),
            start.len() == keys@.len(),
            at@.len() == keys@.len(),
            x <= tids@.len(),
            forall|y: int| 0 <= y < tids@.len() ==> 1 <= (#[trigger] tids@[y]).offset <= 512 && keys@.contains(tids@[y].spec_key() as u64),
            forall|y: int, z: int| 0 <= y < z < tids@.len() ==> (#[trigger] tids@[y]).before(#[trigger] tids@[z]),
            forall|k: int| 0 <= k < keys@.len() ==> (#[trigger] at@[k])@ == (if key_listed(tids@, x as int, keys@[k] as int) {
                start[k]@.push(id)
            } else {
                start[k]@
            }),
            held(at@, keys@.len() as int) == held(start, keys@.len() as int) + x,
        decreases tids@.len() - x,
    {
        let ghost was = at@;
        let tid: Tid = tids[x];
        proof {
            lemma_key_order(tid, tid);
        }
        let k: usize = find(keys, tid.key());
        proof {
            assert(!key_listed(tids@, x as int, keys@[k as int] as int)) by {
                if key_listed(tids@, x as int, keys@[k as int] as int) {
                    let y = choose|y: int| 0 <= y < x && (#[trigger] tids@[y]).spec_key() == keys@[k as int];
                    lemma_key_order(tids@[y], tid);
                    assert(tids@[y].before(tids@[x as int]));
                }
            }
        }
        at[k].push(id);
        proof {
            lemma_held_push(was, at@, k as int, keys@.len() as int);
            assert forall|j: int| 0 <= j < keys@.len() implies (#[trigger] at@[j])@ == (if key_listed(tids@, x + 1, keys@[j] as int) {
                start[j]@.push(id)
            } else {
                start[j]@
            }) by {
                if j == k {
                    assert(tids@[x as int].spec_key() == keys@[j]);
                    assert(key_listed(tids@, x + 1, keys@[j] as int));
                    assert(was[j]@ == start[j]@);
                } else {
                    assert(at@[j]@ == was[j]@);
                    if key_listed(tids@, x + 1, keys@[j] as int) {
                        let y = choose|y: int| 0 <= y < x + 1 && (#[trigger] tids@[y]).spec_key() == keys@[j];
                        if y == x {
                            assert(keys@[j] == keys@[k as int]);
                            assert(false);
                        }
                        assert(key_listed(tids@, x as int, keys@[j] as int));
                    }
                    if key_listed(tids@, x as int, keys@[j] as int) {
                        let y = choose|y: int| 0 <= y < x && (#[trigger] tids@[y]).spec_key() == keys@[j];
                        assert(0 <= y < x + 1 && tids@[y].spec_key() == keys@[j]);
                    }
                }
            }
        }
        x = x + 1;
    }
}

/// Whether one of the names `ids` is `t`.
spec fn labelled(names: Seq<String>, ids: Seq<usize>, t: Seq<char>) -> bool {
    exists|x: int| 0 <= x < ids.len() && names[(#[trigger] ids[x]) as int]@ == t
}

/// The buckets hold numbers of names.
spec fn numbered(names: Seq<String>, at: Seq<Vec<usize>>) -> bool {
    forall|k: int, x: int| 0 <= k < at.len() && 0 <= x < at[k]@.len() ==> #[trigger] at[k]@[x] < names.len()
}

/// A tuple is found again by its key.
proof fn lemma_key_tid(t: Tid)
    requires
        1 <= t.offset <= 512,
    ensures
        tid_of_key(t.spec_key()) == t,
        0 <= t.spec_key() < 0x200_0000_0000,
{
}

/// The live tuples of one term.
proof fn lemma_one_term(i: Input<'_>, t: Seq<char>, tid: Tid)
    ensures
        i.0.live_found(PlanView::Term(t), i.1).contains(tid) <==> live_in(i, t, tid),
{
    let terms = i.0.terms_at(tid);
    assert(terms.contains(t) <==> i.0.has(t, tid));
    if plan_matches(PlanView::Term(t), terms) {
        assert(terms.contains(t));
    }
    if terms.contains(t) {
        assert(plan_accepts(PlanView::Term(t), t));
        assert(some_accepted(PlanView::Term(t), terms));
    }
}

/// Live tuples of a term are some of its tuples.
proof fn lemma_live_few(i: Input<'_>, t: Seq<char>, list: Seq<Tid>)
    requires
        i.0.wf(),
        i.0.values().dom().contains(encode_utf8(t)),
        is_listing(list, i.0.live_found(PlanView::Term(t), i.1)),
    ensures
        list.len() <= freq(*i.0, t),
{
    let p = PlanView::Term(t);
    let all = term_tids(i.0.values()[encode_utf8(t)], i.0.area(), i.0.dir());
    i.0.lemma_found_finite(p);
    assert forall|tid: Tid| all.contains(tid) <==> i.0.found(p).contains(tid) by {
        lemma_one_term((i.0, None), t, tid);
        assert(i.0.live_found(p, None).contains(tid) <==> i.0.found(p).contains(tid));
    }
    assert(all =~= i.0.found(p));
    let live = i.0.live_found(p, i.1);
    assert(live.subset_of(all));
    vstd::set_lib::lemma_len_subset(live, all);
    lemma_listing_len(list, live);
}

/// Whether `t` is among the first `n` terms.
spec fn told(ts: Seq<(String, u64)>, n: int, t: Seq<char>) -> bool {
    exists|i: int| 0 <= i < n && (#[trigger] ts[i]).0@ == t
}

/// Whether the first `n` lists have the term for the tuple.
spec fn listed(ls: Seq<(String, Vec<Tid>)>, n: int, t: Seq<char>, tid: Tid) -> bool {
    exists|i: int| 0 <= i < n && (#[trigger] ls[i]).0@ == t && ls[i].1@.contains(tid)
}

/// The entries of the first `n` lists.
spec fn lens(ls: Seq<(String, Vec<Tid>)>, n: int) -> int
    decreases n,
{
    if n <= 0 {
        0
    } else {
        lens(ls, n - 1) + ls[n - 1].1@.len()
    }
}

proof fn lemma_listed_push(ls: Seq<(String, Vec<Tid>)>, e: (String, Vec<Tid>), t: Seq<char>, tid: Tid)
    ensures
        listed(ls.push(e), ls.len() as int + 1, t, tid) <==> listed(ls, ls.len() as int, t, tid) || (e.0@ == t && e.1@.contains(tid)),
{
    let more = ls.push(e);
    if listed(ls, ls.len() as int, t, tid) {
        let i = choose|i: int| 0 <= i < ls.len() && (#[trigger] ls[i]).0@ == t && ls[i].1@.contains(tid);
        assert(more[i] == ls[i]);
    }
    if listed(more, more.len() as int, t, tid) {
        let i = choose|i: int| 0 <= i < more.len() && (#[trigger] more[i]).0@ == t && more[i].1@.contains(tid);
        if i < ls.len() {
            assert(ls[i] == more[i]);
        }
    }
    assert(more[ls.len() as int] == e);
}

proof fn lemma_listed_step(ls: Seq<(String, Vec<Tid>)>, n: int, t: Seq<char>, tid: Tid)
    requires
        0 <= n < ls.len(),
    ensures
        listed(ls, n + 1, t, tid) <==> listed(ls, n, t, tid) || (ls[n].0@ == t && ls[n].1@.contains(tid)),
{
    if listed(ls, n + 1, t, tid) {
        let i = choose|i: int| 0 <= i < n + 1 && (#[trigger] ls[i]).0@ == t && ls[i].1@.contains(tid);
        if i < n {
            assert(listed(ls, n, t, tid));
        }
    }
    if listed(ls, n, t, tid) {
        let i = choose|i: int| 0 <= i < n && (#[trigger] ls[i]).0@ == t && ls[i].1@.contains(tid);
        assert(0 <= i < n + 1 && ls[i].0@ == t && ls[i].1@.contains(tid));
    }
}

proof fn lemma_lens_push(ls: Seq<(String, Vec<Tid>)>, e: (String, Vec<Tid>), n: int)
    requires
        0 <= n <= ls.len(),
    ensures
        lens(ls.push(e), n) == lens(ls, n),
    decreases n,
{
    if n > 0 {
        lemma_lens_push(ls, e, n - 1);
    }
}

/// Whether a key is in the range from `lo` to below `hi`.
pub open spec fn in_cut(k: Seq<u8>, lo: Option<Seq<u8>>, hi: Option<Seq<u8>>) -> bool {
    &&& lo matches Some(l) ==> !bytes_less(k, l)
    &&& hi matches Some(h) ==> bytes_less(k, h)
}

/// A bound's bytes.
pub open spec fn bound_view(b: Option<&[u8]>) -> Option<Seq<u8>> {
    match b {
        Some(x) => Some(x@),
        None => None,
    }
}

fn is_in_cut(k: &[u8], lo: Option<&[u8]>, hi: Option<&[u8]>) -> (r: bool)
    ensures
        r == in_cut(k@, bound_view(lo), bound_view(hi)),
{
    let above: bool = match lo {
        Some(l) => !comes_before(k, l),
        None => true,
    };
    let below: bool = match hi {
        Some(h) => comes_before(k, h),
        None => true,
    };
    above && below
}

/// What a range of terms has in the live tuples of merged segments.
pub struct MergedPart {
    lists: Vec<(String, Vec<Tid>)>,
}

impl MergedPart {
    /// Every list ascends, of tuples that a key can stand for.
    pub closed spec fn wf(&self) -> bool {
        &&& forall|i: int, x: int, y: int| 0 <= i < self.lists@.len() && 0 <= x < y < self.lists@[i].1@.len() ==> (#[trigger] self.lists@[i].1@[x]).before(
            #[trigger] self.lists@[i].1@[y],
        )
    }

    /// Whether the tuple has the term, in the part's range.
    pub closed spec fn has(&self, t: Seq<char>, tid: Tid) -> bool {
        listed(self.lists@, self.lists@.len() as int, t, tid)
    }

    /// Entries of all lists.
    pub closed spec fn size(&self) -> int {
        lens(self.lists@, self.lists@.len() as int)
    }
}

/// The part of the terms from `lo` to below `hi`.
pub open spec fn is_part(p: MergedPart, inputs: Seq<Input<'_>>, lo: Option<Seq<u8>>, hi: Option<Seq<u8>>) -> bool {
    forall|t: Seq<char>, tid: Tid| #[trigger] p.has(t, tid) <==> kept_in(inputs, inputs.len() as int, t, tid) && in_cut(encode_utf8(t), lo, hi)
}

/// A merge of segments that can be split by term range.
pub struct Merge<'a> {
    inputs: Vec<(&'a Segment, Option<&'a [u64]>)>,
    keys: Vec<u64>,
}

impl<'a> Merge<'a> {
    /// The segments.
    pub closed spec fn spec_inputs(&self) -> Seq<Input<'a>> {
        self.inputs@
    }

    /// The segments are whole, and some tuple is live.
    pub closed spec fn wf(&self) -> bool {
        &&& forall|i: int| 0 <= i < self.inputs@.len() ==> (#[trigger] self.inputs@[i]).0.wf()
        &&& on_heap(self.inputs@)
        &&& are_keys(self.keys@, self.inputs@, self.inputs@.len() as int)
        &&& self.keys@.len() > 0
        &&& u32::MAX * 512 + 0x1_0000 <= usize::MAX
    }

    /// A merge of segments; `None` if no tuple is live.
    pub fn new(inputs: &Vec<(&'a Segment, Option<&'a [u64]>)>) -> (r: Option<Merge<'a>>)
        requires
            forall|i: int| 0 <= i < inputs@.len() ==> (#[trigger] inputs@[i]).0.wf(),
            on_heap(inputs@),
            u32::MAX * 512 + 0x1_0000 <= usize::MAX,
        ensures
            match r {
                Some(m) => m.wf() && m.spec_inputs() == inputs@ && exists|tid: Tid| #[trigger] kept_tuples(inputs@, inputs@.len() as int).contains(tid),
                None => forall|tid: Tid| !#[trigger] kept_tuples(inputs@, inputs@.len() as int).contains(tid),
            },
    {
        let ghost n = inputs@.len() as int;
        let keys: Vec<u64> = live_keys(inputs);
        if keys.len() == 0 {
            proof {
                assert forall|tid: Tid| !#[trigger] kept_tuples(inputs@, n).contains(tid) by {
                    if kept_tuples(inputs@, n).contains(tid) {
                        assert(keys@.contains(tid.spec_key() as u64));
                    }
                }
            }
            return None;
        }
        let mut own: Vec<(&'a Segment, Option<&'a [u64]>)> = Vec::new();
        while own.len() < inputs.len()
            invariant
                own@.len() <= inputs@.len(),
                forall|k: int| 0 <= k < own@.len() ==> #[trigger] own@[k] == inputs@[k],
            decreases inputs@.len() - own@.len(),
        {
            let i: usize = own.len();
            own.push((inputs[i].0, inputs[i].1));
        }
        proof {
            assert(own@ =~= inputs@);
            assert(keys@[0] < 0x200_0000_0000);
            assert(kept_tuples(inputs@, n).contains(tid_of_key(keys@[0] as int)));
        }
        Some(Merge { inputs: own, keys })
    }

    /// Fewer than `n` keys, ascending, that cut the terms into parts of about
    /// the same number; with two terms or more in a segment at least one.
    pub fn split_points(&self, n: usize) -> (r: Vec<Vec<u8>>)
        requires
            self.wf(),
            n > 0,
        ensures
            r@.len() < n,
            cuts_ascend(r@),
            n > 1 && (exists|i: int, a: Seq<char>, b: Seq<char>|
                0 <= i < self.spec_inputs().len() && a != b && #[trigger] self.spec_inputs()[i].0.values().dom().contains(encode_utf8(a))
                    && #[trigger] self.spec_inputs()[i].0.values().dom().contains(encode_utf8(b))) ==> r@.len() > 0,
    {
        // The longest dictionary stands for all.
        let mut best: Vec<(String, u64)> = Vec::new();
        let mut i: usize = 0;
        while i < self.inputs.len()
            invariant
                self.wf(),
                i <= self.inputs@.len(),
                forall|x: int, y: int| 0 <= x < y < best@.len() ==> bytes_less(encode_utf8((#[trigger] best@[x]).0@), encode_utf8((#[trigger] best@[y]).0@)),
                forall|k: int, a: Seq<char>, b: Seq<char>|
                    0 <= k < i && a != b && #[trigger] self.inputs@[k].0.values().dom().contains(encode_utf8(a)) && #[trigger] self.inputs@[k].0.values().dom().contains(
                        encode_utf8(b),
                    ) ==> best@.len() >= 2,
            decreases self.inputs@.len() - i,
        {
            let ts: Vec<(String, u64)> = self.inputs[i].0.for_each_term();
            proof {
                assert forall|a: Seq<char>, b: Seq<char>|
                    a != b && #[trigger] self.inputs@[i as int].0.values().dom().contains(encode_utf8(a)) && #[trigger] self.inputs@[i as int].0.values().dom().contains(
                        encode_utf8(b),
                    ) implies ts@.len() >= 2 by {
                    let x = choose|x: int| 0 <= x < ts@.len() && (#[trigger] ts@[x]).0@ == a;
                    let y = choose|y: int| 0 <= y < ts@.len() && (#[trigger] ts@[y]).0@ == b;
                    assert(x != y);
                }
            }
            if ts.len() > best.len() {
                best = ts;
            }
            i = i + 1;
        }
        let m: usize = best.len();
        let mut cuts: Vec<Vec<u8>> = Vec::new();
        let mut last: usize = 0;
        let mut k: usize = 1;
        while k < n
            invariant
                m == best@.len(),
                1 <= k <= n,
                cuts@.len() < k,
                last == 0 ==> cuts@.len() == 0,
                last > 0 ==> cuts@.len() > 0 && last < m && cuts@.last()@ == encode_utf8(best@[last as int].0@),
                cuts_ascend(cuts@),
                m >= 2 && k == n && n > 1 ==> cuts@.len() > 0,
                forall|x: int, y: int| 0 <= x < y < best@.len() ==> bytes_less(encode_utf8((#[trigger] best@[x]).0@), encode_utf8((#[trigger] best@[y]).0@)),
            decreases n - k,
        {
            let at: usize = share(m, k, n);
            if at > last {
                let c: Vec<u8> = vstd::slice::slice_to_vec(best[at].0.as_str().as_bytes());
                let ghost was = cuts@;
                proof {
                    assert(last > 0 ==> bytes_less(encode_utf8(best@[last as int].0@), encode_utf8(best@[at as int].0@)));
                }
                cuts.push(c);
                proof {
                    assert forall|x: int, y: int| 0 <= x < y < cuts@.len() implies bytes_less((#[trigger] cuts@[x])@, (#[trigger] cuts@[y])@) by {
                        if y == was.len() {
                            if x < was.len() - 1 {
                                assert(bytes_less(was[x]@, was.last()@));
                                lemma_bytes_less_trans(was[x]@, was.last()@, c@);
                            }
                        }
                    }
                }
                last = at;
            }
            k = k + 1;
        }
        cuts
    }

    /// What the terms from `lo` to below `hi` have in live tuples.
    pub fn part(&self, lo: Option<&[u8]>, hi: Option<&[u8]>) -> (r: MergedPart)
        requires
            self.wf(),
        ensures
            r.wf(),
            is_part(r, self.spec_inputs(), bound_view(lo), bound_view(hi)),
            0 <= r.size() <= postings_of(self.spec_inputs(), self.spec_inputs().len() as int),
    {
        let ghost ins = self.inputs@;
        let ghost (l, h) = (bound_view(lo), bound_view(hi));
        let mut lists: Vec<(String, Vec<Tid>)> = Vec::new();
        let mut i: usize = 0;
        while i < self.inputs.len()
            invariant
                self.wf(),
                ins == self.inputs@,
                l == bound_view(lo),
                h == bound_view(hi),
                i <= ins.len(),
                forall|k: int, x: int, y: int| 0 <= k < lists@.len() && 0 <= x < y < lists@[k].1@.len() ==> (#[trigger] lists@[k].1@[x]).before(
                    #[trigger] lists@[k].1@[y],
                ),
                0 <= lens(lists@, lists@.len() as int) <= postings_of(ins, i as int),
                forall|t: Seq<char>, tid: Tid| #[trigger] listed(lists@, lists@.len() as int, t, tid) <==> kept_in(ins, i as int, t, tid) && in_cut(encode_utf8(t), l, h),
            decreases ins.len() - i,
        {
            let ghost input: Input<'_> = ins[i as int];
            let ghost before = lists@;
            let seg: &Segment = self.inputs[i].0;
            let live: Option<&[u64]> = self.inputs[i].1;
            let ts: Vec<(String, u64)> = seg.for_each_term();
            proof {
                assert forall|k: int| 0 <= k < ts@.len() implies seg.values().dom().contains(encode_utf8((#[trigger] ts@[k]).0@)) && ts@[k].1 == freq(*seg, ts@[k].0@) by {
                }
                lemma_freqs(*seg, ts@, ts@.len() as int);
                assert(is_run(seg.values(), names_in(ts@)));
                assert forall|t: Seq<char>| #[trigger] seg.values().dom().contains(encode_utf8(t)) implies names_in(ts@).contains(t) by {
                    let k = choose|k: int| 0 <= k < ts@.len() && (#[trigger] ts@[k]).0@ == t;
                    assert(names_in(ts@)[k] == t);
                }
                seg.lemma_own_postings(names_in(ts@));
            }
            let mut j: usize = 0;
            while j < ts.len()
                invariant
                    seg.wf(),
                    input == (seg, live),
                    l == bound_view(lo),
                    h == bound_view(hi),
                    j <= ts@.len(),
                    forall|k: int| 0 <= k < ts@.len() ==> seg.values().dom().contains(encode_utf8((#[trigger] ts@[k]).0@)) && ts@[k].1 == freq(*seg, ts@[k].0@),
                    forall|k: int, x: int, y: int| 0 <= k < lists@.len() && 0 <= x < y < lists@[k].1@.len() ==> (#[trigger] lists@[k].1@[x]).before(
                        #[trigger] lists@[k].1@[y],
                    ),
                    0 <= lens(lists@, lists@.len() as int) <= lens(before, before.len() as int) + freqs(ts@, j as int),
                    forall|t: Seq<char>, tid: Tid| #[trigger] listed(lists@, lists@.len() as int, t, tid) <==> listed(before, before.len() as int, t, tid) || (
                        told(ts@, j as int, t) && live_in(input, t, tid) && in_cut(encode_utf8(t), l, h)),
                decreases ts@.len() - j,
            {
                let ghost name = ts@[j as int].0@;
                let ghost was = lists@;
                let cut: bool = is_in_cut(ts[j].0.as_str().as_bytes(), lo, hi);
                if cut {
                    let tids: Vec<Tid> = seg.search_live(&Plan::Term(copy_of(ts[j].0.as_str())), live);
                    let ghost list = tids@;
                    proof {
                        lemma_live_few(input, name, list);
                    }
                    lists.push((copy_of(ts[j].0.as_str()), tids));
                    proof {
                        let e = lists@.last();
                        assert(lists@ =~= was.push(e));
                        lemma_lens_push(was, e, was.len() as int);
                        assert forall|k: int, x: int, y: int| 0 <= k < lists@.len() && 0 <= x < y < lists@[k].1@.len() implies (#[trigger] lists@[k].1@[x]).before(
                            #[trigger] lists@[k].1@[y],
                        ) by {
                            if k < was.len() {
                                assert(lists@[k] == was[k]);
                            }
                        }
                    }
                }
                proof {
                    assert forall|t: Seq<char>, tid: Tid| #[trigger] listed(lists@, lists@.len() as int, t, tid) <==> listed(before, before.len() as int, t, tid) || (
                        told(ts@, j + 1, t) && live_in(input, t, tid) && in_cut(encode_utf8(t), l, h)) by {
                        assert(listed(was, was.len() as int, t, tid) <==> listed(before, before.len() as int, t, tid) || (told(ts@, j as int, t) && live_in(
                            input,
                            t,
                            tid,
                        ) && in_cut(encode_utf8(t), l, h)));
                        if told(ts@, j as int, t) {
                            let k = choose|k: int| 0 <= k < j && (#[trigger] ts@[k]).0@ == t;
                            assert(0 <= k < j + 1 && ts@[k].0@ == t);
                        }
                        if t == name {
                            assert(ts@[j as int].0@ == t);
                        }
                        if cut {
                            lemma_listed_push(was, lists@.last(), t, tid);
                            lemma_one_term(input, name, tid);
                        }
                    }
                }
                j = j + 1;
            }
            proof {
                assert forall|t: Seq<char>, tid: Tid| #[trigger] listed(lists@, lists@.len() as int, t, tid) <==> kept_in(ins, i + 1, t, tid) && in_cut(
                    encode_utf8(t),
                    l,
                    h,
                ) by {
                    assert(listed(before, before.len() as int, t, tid) <==> kept_in(ins, i as int, t, tid) && in_cut(encode_utf8(t), l, h));
                    if live_in(input, t, tid) {
                        assert(seg.values().dom().contains(encode_utf8(t)));
                        let k = choose|k: int| 0 <= k < ts@.len() && (#[trigger] ts@[k]).0@ == t;
                        assert(told(ts@, j as int, t));
                        assert(live_in(ins[i as int], t, tid));
                        assert(kept_in(ins, i + 1, t, tid));
                    }
                    if kept_in(ins, i as int, t, tid) {
                        let z = choose|z: int| 0 <= z < i && live_in(#[trigger] ins[z], t, tid);
                        assert(0 <= z < i + 1 && live_in(ins[z], t, tid));
                    }
                    if kept_in(ins, i + 1, t, tid) && !kept_in(ins, i as int, t, tid) {
                        let z = choose|z: int| 0 <= z < i + 1 && live_in(#[trigger] ins[z], t, tid);
                        assert(z == i);
                    }
                }
            }
            i = i + 1;
        }
        MergedPart { lists }
    }

    /// A writer that joins parts.
    pub fn writer(&self) -> (r: MergeWriter)
        requires
            self.wf(),
        ensures
            r.wf(),
            r.is_for(*self),
            r.size() == 0,
            forall|t: Seq<char>, tid: Tid| !#[trigger] r.has(t, tid),
    {
        let len: usize = self.keys.len();
        let mut keys: Vec<u64> = Vec::new();
        let mut at: Vec<Vec<usize>> = Vec::new();
        while at.len() < len
            invariant
                len == self.keys@.len(),
                at@.len() <= len,
                keys@.len() == at@.len(),
                forall|k: int| 0 <= k < keys@.len() ==> #[trigger] keys@[k] == self.keys@[k],
                forall|k: int| 0 <= k < at@.len() ==> (#[trigger] at@[k])@.len() == 0,
            decreases len - at@.len(),
        {
            let i: usize = at.len();
            keys.push(self.keys[i]);
            at.push(Vec::new());
        }
        let r: MergeWriter = MergeWriter { keys, names: Vec::new(), at };
        proof {
            assert(r.keys@ =~= self.keys@);
            lemma_held_none(r.at@, len as int);
        }
        r
    }

    /// The merged segment of parts that [`part`](Self::part) gave.
    pub fn finish(&self, parts: Vec<MergedPart>) -> (r: Segment)
        requires
            self.wf(),
            forall|i: int| 0 <= i < parts@.len() ==> (#[trigger] parts@[i]).wf() && parts@[i].size() >= 0,
            forall|i: int, t: Seq<char>, tid: Tid|
                0 <= i < parts@.len() && #[trigger] parts@[i].has(t, tid) ==> kept_in(self.spec_inputs(), self.spec_inputs().len() as int, t, tid),
            size_limit(merge_weight(self.spec_inputs()) * parts_size(parts@, parts@.len() as int)),
        ensures
            is_joined(r, self.spec_inputs()),
            forall|t: Seq<char>, tid: Tid| #[trigger] r.has(t, tid) <==> parts_have(parts@, parts@.len() as int, t, tid),
    {
        let mut w: MergeWriter = self.writer();
        let ghost all = parts@;
        let ghost ins = self.inputs@;
        let mut i: usize = 0;
        while i < parts.len()
            invariant
                self.wf(),
                ins == self.inputs@,
                all == parts@,
                i <= all.len(),
                w.wf(),
                w.is_for(*self),
                w.size() == parts_size(all, i as int),
                forall|k: int| 0 <= k < all.len() ==> (#[trigger] all[k]).wf() && all[k].size() >= 0,
                forall|k: int, t: Seq<char>, tid: Tid| 0 <= k < all.len() && #[trigger] all[k].has(t, tid) ==> kept_in(ins, ins.len() as int, t, tid),
                forall|t: Seq<char>, tid: Tid| #[trigger] w.has(t, tid) <==> parts_have(all, i as int, t, tid),
            decreases all.len() - i,
        {
            let ghost was = w;
            proof {
                assert forall|t: Seq<char>, tid: Tid| #[trigger] all[i as int].has(t, tid) implies w.covers(tid) by {
                    lemma_kept(ins, ins.len() as int, t, tid);
                }
            }
            w.push(&parts[i]);
            proof {
                assert forall|t: Seq<char>, tid: Tid| #[trigger] w.has(t, tid) <==> parts_have(all, i + 1, t, tid) by {
                    assert(w.has(t, tid) <==> was.has(t, tid) || all[i as int].has(t, tid));
                    if parts_have(all, i as int, t, tid) {
                        let k = choose|k: int| 0 <= k < i && (#[trigger] all[k]).has(t, tid);
                        assert(0 <= k < i + 1 && all[k].has(t, tid));
                    }
                    if parts_have(all, i + 1, t, tid) {
                        let k = choose|k: int| 0 <= k < i + 1 && (#[trigger] all[k]).has(t, tid);
                        if k < i {
                            assert(parts_have(all, i as int, t, tid));
                        }
                    }
                }
            }
            i = i + 1;
        }
        let ghost joined = w;
        proof {
            assert forall|t: Seq<char>, tid: Tid| #[trigger] joined.has(t, tid) implies kept_in(ins, ins.len() as int, t, tid) by {
                let k = choose|k: int| 0 <= k < i && (#[trigger] all[k]).has(t, tid);
            }
        }
        w.finish(self)
    }
}

/// Keys that ascend.
pub open spec fn cuts_ascend(cuts: Seq<Vec<u8>>) -> bool {
    forall|x: int, y: int| 0 <= x < y < cuts.len() ==> bytes_less((#[trigger] cuts[x])@, (#[trigger] cuts[y])@)
}

/// The `k`th of `n` equal shares of `m`.
fn share(m: usize, k: usize, n: usize) -> (r: usize)
    requires
        1 <= k < n,
    ensures
        m > 0 ==> r < m,
        m == 0 ==> r == 0,
        m >= 2 && k == n - 1 ==> r >= 1,
{
    proof {
        let (a, b, c) = (m as int, k as int, n as int);
        assert(0 <= a * b <= 0xFFFF_FFFF_FFFF_FFFF * 0xFFFF_FFFF_FFFF_FFFF) by (nonlinear_arith)
            requires
                0 <= a <= 0xFFFF_FFFF_FFFF_FFFF,
                0 <= b <= 0xFFFF_FFFF_FFFF_FFFF,
        ;
        assert(a > 0 ==> (a * b) / c < a) by (nonlinear_arith)
            requires
                0 <= a,
                1 <= b < c,
        ;
        assert(a == 0 ==> (a * b) / c == 0) by (nonlinear_arith)
            requires
                1 <= b < c,
        ;
        assert(a >= 2 && b == c - 1 ==> (a * b) / c >= 1) by (nonlinear_arith)
            requires
                1 <= b < c,
        ;
    }
    let r: u128 = (m as u128 * k as u128) / n as u128;
    r as usize
}

/// Whether one of the first `n` parts has the term for the tuple.
pub open spec fn parts_have(parts: Seq<MergedPart>, n: int, t: Seq<char>, tid: Tid) -> bool {
    exists|i: int| 0 <= i < n && (#[trigger] parts[i]).has(t, tid)
}

/// The entries of the first `n` parts.
pub open spec fn parts_size(parts: Seq<MergedPart>, n: int) -> int
    decreases n,
{
    if n <= 0 {
        0
    } else {
        parts_size(parts, n - 1) + parts[n - 1].size()
    }
}

/// A segment of the live tuples of others, as far as it has terms of them.
pub open spec fn is_joined(m: Segment, inputs: Seq<Input<'_>>) -> bool {
    let kept = kept_tuples(inputs, inputs.len() as int);
    &&& m.wf()
    &&& forall|tid: Tid| #[trigger] m.indexed(tid) <==> kept.contains(tid)
    &&& m.spec_meta().doc_count == kept.len() > 0
    &&& m.spec_meta().grams == all_grams(inputs)
    &&& exists|docs: Seq<DocTerms>| #[trigger] counts_docs(m, docs)
    &&& spans(m, kept)
}

/// Joins the parts of a merge.
pub struct MergeWriter {
    keys: Vec<u64>,
    names: Vec<String>,
    /// For each key the numbers of its tuple's names.
    at: Vec<Vec<usize>>,
}

impl MergeWriter {
    pub closed spec fn wf(&self) -> bool {
        &&& rising(self.keys@)
        &&& forall|k: int| 0 <= k < self.keys@.len() ==> #[trigger] self.keys@[k] < 0x200_0000_0000
        &&& self.at@.len() == self.keys@.len()
        &&& numbered(self.names@, self.at@)
    }

    /// The writer is one of the merge.
    pub closed spec fn is_for(&self, m: Merge<'_>) -> bool {
        self.keys@ == m.keys@
    }

    /// The tuple is one of those that are merged.
    pub closed spec fn covers(&self, tid: Tid) -> bool {
        1 <= tid.offset <= 512 && self.keys@.contains(tid.spec_key() as u64)
    }

    /// Whether a part that was pushed has the term for the tuple.
    pub closed spec fn has(&self, t: Seq<char>, tid: Tid) -> bool {
        exists|k: int| 0 <= k < self.keys@.len() && tid_of_key(#[trigger] self.keys@[k] as int) == tid && labelled(self.names@, self.at@[k]@, t)
    }

    /// Entries pushed so far.
    pub closed spec fn size(&self) -> int {
        held(self.at@, self.keys@.len() as int)
    }

    /// Join a part.
    pub fn push(&mut self, part: &MergedPart)
        requires
            old(self).wf(),
            part.wf(),
            forall|t: Seq<char>, tid: Tid| #[trigger] part.has(t, tid) ==> old(self).covers(tid),
        ensures
            final(self).wf(),
            forall|m: Merge<'_>| #[trigger] old(self).is_for(m) ==> final(self).is_for(m),
            forall|tid: Tid| #[trigger] old(self).covers(tid) ==> final(self).covers(tid),
            forall|t: Seq<char>, tid: Tid| #[trigger] final(self).has(t, tid) <==> old(self).has(t, tid) || part.has(t, tid),
            final(self).size() == old(self).size() + part.size(),
    {
        let ghost before = *self;
        let ghost ls = part.lists@;
        let ghost keys = self.keys@;
        let mut i: usize = 0;
        proof {
            assert forall|t: Seq<char>, tid: Tid| #[trigger] listed(ls, ls.len() as int, t, tid) implies before.covers(tid) by {
                assert(part.has(t, tid));
            }
        }
        while i < part.lists.len()
            invariant
                self.wf(),
                part.wf(),
                ls == part.lists@,
                keys == self.keys@,
                keys == before.keys@,
                before.at@.len() == keys.len(),
                i <= ls.len(),
                forall|t: Seq<char>, tid: Tid| #[trigger] listed(ls, ls.len() as int, t, tid) ==> before.covers(tid),
                forall|k: int, t: Seq<char>| 0 <= k < keys.len() ==> (#[trigger] labelled(self.names@, self.at@[k]@, t) <==> labelled(before.names@, before.at@[k]@, t)
                    || listed(ls, i as int, t, tid_of_key(keys[k] as int))),
                self.size() == before.size() + lens(ls, i as int),
            decreases ls.len() - i,
        {
            let ghost (nm, bk) = (self.names@, self.at@);
            let ghost e = ls[i as int];
            let id: usize = self.names.len();
            self.names.push(copy_of(part.lists[i].0.as_str()));
            proof {
                assert forall|x: int| 0 <= x < e.1@.len() implies 1 <= (#[trigger] e.1@[x]).offset <= 512 && keys.contains(e.1@[x].spec_key() as u64) by {
                    assert(e.1@.contains(e.1@[x]));
                    assert(listed(ls, ls.len() as int, e.0@, e.1@[x]));
                    assert(before.covers(e.1@[x]));
                }
                assert forall|x: int, y: int| 0 <= x < y < e.1@.len() implies (#[trigger] e.1@[x]).before(#[trigger] e.1@[y]) by {
                    assert(ls[i as int].1@[x].before(ls[i as int].1@[y]));
                }
            }
            put(&mut self.at, &self.keys, &part.lists[i].1, id);
            proof {
                assert forall|k: int, x: int| 0 <= k < self.at@.len() && 0 <= x < self.at@[k]@.len() implies #[trigger] self.at@[k]@[x] < self.names@.len() by {
                    if x < bk[k]@.len() {
                        assert(bk[k]@[x] < nm.len());
                    }
                }
                assert forall|k: int, t: Seq<char>| 0 <= k < keys.len() implies (#[trigger] labelled(self.names@, self.at@[k]@, t) <==> labelled(
                    before.names@,
                    before.at@[k]@,
                    t,
                ) || listed(ls, i + 1, t, tid_of_key(keys[k] as int))) by {
                    assert(labelled(nm, bk[k]@, t) <==> labelled(before.names@, before.at@[k]@, t) || listed(ls, i as int, t, tid_of_key(keys[k] as int)));
                    lemma_put(e.0@, e.1@, keys[k], nm, self.names@, bk[k]@, self.at@[k]@, t);
                    lemma_listed_step(ls, i as int, t, tid_of_key(keys[k] as int));
                }
            }
            i = i + 1;
        }
        proof {
            assert forall|t: Seq<char>, tid: Tid| #[trigger] self.has(t, tid) <==> before.has(t, tid) || part.has(t, tid) by {
                if self.has(t, tid) {
                    let k = choose|k: int| 0 <= k < keys.len() && tid_of_key(#[trigger] keys[k] as int) == tid && labelled(self.names@, self.at@[k]@, t);
                    assert(labelled(self.names@, self.at@[k]@, t));
                    assert(tid_of_key(before.keys@[k] as int) == tid);
                }
                if before.has(t, tid) {
                    let k = choose|k: int| 0 <= k < keys.len() && tid_of_key(#[trigger] keys[k] as int) == tid && labelled(before.names@, before.at@[k]@, t);
                    assert(labelled(self.names@, self.at@[k]@, t));
                    assert(tid_of_key(self.keys@[k] as int) == tid);
                }
                if part.has(t, tid) {
                    assert(before.covers(tid));
                    lemma_key_tid(tid);
                    let k = keys.index_of(tid.spec_key() as u64);
                    assert(listed(ls, i as int, t, tid_of_key(keys[k] as int)));
                    assert(labelled(self.names@, self.at@[k]@, t));
                    assert(tid_of_key(self.keys@[k] as int) == tid);
                }
            }
        }
    }

    /// The merged segment.
    #[verifier::spinoff_prover]
    #[verifier::rlimit(80)]
    pub fn finish(self, m: &Merge<'_>) -> (r: Segment)
        requires
            self.wf(),
            m.wf(),
            self.is_for(*m),
            forall|t: Seq<char>, tid: Tid| #[trigger] self.has(t, tid) ==> kept_in(m.spec_inputs(), m.spec_inputs().len() as int, t, tid),
            size_limit(merge_weight(m.spec_inputs()) * self.size()),
        ensures
            is_joined(r, m.spec_inputs()),
            forall|t: Seq<char>, tid: Tid| #[trigger] r.has(t, tid) <==> self.has(t, tid),
    {
        let ghost ins = m.inputs@;
        let ghost n = ins.len() as int;
        let keys: Vec<u64> = self.keys;
        let names: Vec<String> = self.names;
        let at: Vec<Vec<usize>> = self.at;
        let len: usize = keys.len();
        let first: Tid = Tid::from_key(keys[0]);
        let grams: bool = with_grams(&m.inputs);
        let mut b: SegmentBuilder = SegmentBuilder::open_ended(first.block).with_grams(grams);
        let ghost w = merge_weight(ins);
        proof {
            lemma_held_part(at@, 0, len as int);
            assert forall|k: int, t: Seq<char>| 0 <= k < len && #[trigger] labelled(names@, at@[k]@, t) implies kept_in(ins, n, t, tid_of_key(keys@[k] as int)) by {
                assert(tid_of_key(self.keys@[k] as int) == tid_of_key(keys@[k] as int));
                assert(self.has(t, tid_of_key(keys@[k] as int)));
            }
        }
        let mut k: usize = 0;
        while k < len
            invariant
                len == keys@.len(),
                k <= len,
                n == ins.len(),
                forall|i: int| 0 <= i < n ==> (#[trigger] ins[i]).0.wf(),
                are_keys(keys@, ins, n),
                at@.len() == len,
                numbered(names@, at@),
                size_limit(w * held(at@, len as int)),
                w == merge_weight(ins),
                b.weight() == w,
                b.is_open(),
                b.spec_grams() == all_grams(ins),
                forall|k: int, t: Seq<char>| 0 <= k < len && #[trigger] labelled(names@, at@[k]@, t) ==> kept_in(ins, n, t, tid_of_key(keys@[k] as int)),
                first.spec_key() == keys@[0],
                first.block == keys@[0] / 512,
                b.wf(),
                b.range().0 == first.block,
                b.range().1 == u32::MAX,
                b.docs().len() == k,
                b.size() <= w * held(at@, k as int),
                forall|j: int| 0 <= j < k ==> #[trigger] b.docs()[j] == bucket_doc(keys@, names@, at@, j),
            decreases len - k,
        {
            proof {
                assert(kept_tuples(ins, n).contains(tid_of_key(keys@[k as int] as int)));
                lemma_held_part(at@, k + 1, len as int);
                if k > 0 {
                    assert(keys@[k - 1] < keys@[k as int]);
                    assert(keys@[0] <= keys@[k as int]);
                    assert(b.docs().last() == bucket_doc(keys@, names@, at@, k - 1));
                }
                lemma_in_block(ins, n, tid_of_key(keys@[k as int] as int));
            }
            let tid: Tid = Tid::from_key(keys[k]);
            proof {
                assert(tid == tid_of_key(keys@[k as int] as int));
            }
            let ghost was = b.docs();
            let own: Vec<String> = names_of(&names, &at[k]);
            proof {
                lemma_times(w, held(at@, k + 1), held(at@, len as int));
                assert(w * held(at@, k + 1) == w * held(at@, k as int) + w * own@.len()) by (nonlinear_arith)
                    requires
                        held(at@, k + 1) == held(at@, k as int) + own@.len(),
                ;
                assert forall|x: int| 0 <= x < own@.len() implies takes(b.spec_grams(), (#[trigger] own@[x])@) by {
                    let t = own@[x]@;
                    assert(strings_view(own@)[x] == t);
                    assert(strings_view(own@).to_set().contains(t));
                    assert(labelled(names@, at@[k as int]@, t));
                    lemma_kept_ready(ins, n, t, tid);
                }
            }
            b.add_terms(tid, &own);
            proof {
                assert forall|j: int| 0 <= j < k + 1 implies #[trigger] b.docs()[j] == bucket_doc(keys@, names@, at@, j) by {
                    if j < k {
                        assert(b.docs()[j] == was[j]);
                    }
                }
            }
            k = k + 1;
        }
        let ghost docs = b.docs();
        let r: Segment = b.finish();
        proof {
            assert forall|t: Seq<char>, tid: Tid| #[trigger] r.has(t, tid) <==> self.has(t, tid) by {
                if doc_has(docs, t, tid) {
                    let j = choose|j: int| 0 <= j < docs.len() && (#[trigger] docs[j]).0 == tid && docs[j].1.contains(t);
                    assert(docs[j] == bucket_doc(keys@, names@, at@, j));
                    assert(labelled(names@, at@[j]@, t));
                    assert(tid_of_key(self.keys@[j] as int) == tid);
                }
                if self.has(t, tid) {
                    let j = choose|j: int| 0 <= j < keys@.len() && tid_of_key(#[trigger] self.keys@[j] as int) == tid && labelled(self.names@, self.at@[j]@, t);
                    assert(docs[j] == bucket_doc(keys@, names@, at@, j));
                    assert(docs[j].0 == tid && docs[j].1.contains(t));
                }
            }
            assert forall|tid: Tid| #[trigger] r.indexed(tid) <==> kept_tuples(ins, n).contains(tid) by {
                if doc_added(docs, tid) {
                    let j = choose|j: int| 0 <= j < docs.len() && (#[trigger] docs[j]).0 == tid;
                    assert(docs[j] == bucket_doc(keys@, names@, at@, j));
                    assert(keys@[j] < 0x200_0000_0000);
                }
                if kept_tuples(ins, n).contains(tid) {
                    lemma_key_tid(tid);
                    let j = keys@.index_of(tid.spec_key() as u64);
                    assert(docs[j] == bucket_doc(keys@, names@, at@, j));
                    assert(docs[j].0 == tid);
                }
            }
            let tids = Seq::new(keys@.len(), |j: int| tid_of_key(keys@[j] as int));
            assert(is_listing(tids, kept_tuples(ins, n))) by {
                assert forall|t: Tid| #[trigger] tids.contains(t) <==> kept_tuples(ins, n).contains(t) by {
                    if kept_tuples(ins, n).contains(t) {
                        lemma_key_tid(t);
                        let j = keys@.index_of(t.spec_key() as u64);
                        assert(tids[j] == t);
                    }
                }
                assert forall|i: int, j: int| 0 <= i < j < tids.len() implies (#[trigger] tids[i]).before(#[trigger] tids[j]) by {
                    assert(keys@[i] < keys@[j]);
                }
            }
            lemma_listing_len(tids, kept_tuples(ins, n));
            assert forall|i: int, j: int| 0 <= i < j < docs.len() implies (#[trigger] docs[i]).0.before((#[trigger] docs[j]).0) by {
                assert(docs[i] == bucket_doc(keys@, names@, at@, i) && docs[j] == bucket_doc(keys@, names@, at@, j));
                assert(tids[i].before(tids[j]));
            }
            assert(counts_docs(r, docs));
            let kept = kept_tuples(ins, n);
            assert forall|t: Tid| #[trigger] kept.contains(t) implies r.spec_meta().first_block <= t.block < r.spec_meta().end_block by {
                r.lemma_indexed_range(t);
            }
            assert(docs[0] == bucket_doc(keys@, names@, at@, 0) && docs[len - 1] == bucket_doc(keys@, names@, at@, len - 1));
            assert(tids[0] == docs[0].0 && tids[len - 1] == docs[len - 1].0);
            assert(tids.contains(tids[0]) && tids.contains(tids[len - 1]));
            assert(kept.contains(tids[0]) && kept.contains(tids[len - 1]));
            assert(docs.last() == docs[len - 1]);
            assert(tids[0].block == r.spec_meta().first_block);
            assert(tids[len - 1].block + 1 == r.spec_meta().end_block);
            assert(spans(r, kept));
            assert(r.spec_meta().grams == all_grams(ins));
        }
        r
    }
}

/// One list more in one bucket.
proof fn lemma_put(
    name: Seq<char>,
    tids: Seq<Tid>,
    key: u64,
    nm: Seq<String>,
    names: Seq<String>,
    ids: Seq<usize>,
    more: Seq<usize>,
    t: Seq<char>,
)
    requires
        key < 0x200_0000_0000,
        forall|x: int| 0 <= x < tids.len() ==> 1 <= (#[trigger] tids[x]).offset <= 512,
        names.len() == nm.len() + 1,
        nm.len() <= usize::MAX,
        forall|i: int| 0 <= i < nm.len() ==> names[i] == nm[i],
        names[nm.len() as int]@ == name,
        forall|x: int| 0 <= x < ids.len() ==> (#[trigger] ids[x]) < nm.len(),
        more == (if key_listed(tids, tids.len() as int, key as int) { ids.push(nm.len() as usize) } else { ids }),
    ensures
        labelled(names, more, t) <==> labelled(nm, ids, t) || (t == name && tids.contains(tid_of_key(key as int))),
{
    let tid = tid_of_key(key as int);
    let hit = key_listed(tids, tids.len() as int, key as int);
    assert(hit <==> tids.contains(tid)) by {
        if hit {
            let x = choose|x: int| 0 <= x < tids.len() && (#[trigger] tids[x]).spec_key() == key;
            lemma_key_tid(tids[x]);
            assert(tids[x] == tid);
        }
        if tids.contains(tid) {
            let x = tids.index_of(tid);
            assert(tids[x].offset >= 1);
            assert(tid.spec_key() == key);
            assert(tids[x].spec_key() == key);
        }
    }
    if labelled(nm, ids, t) {
        let x = choose|x: int| 0 <= x < ids.len() && nm[(#[trigger] ids[x]) as int]@ == t;
        assert(more[x] == ids[x]);
        assert(names[more[x] as int]@ == t);
    }
    if labelled(names, more, t) {
        let x = choose|x: int| 0 <= x < more.len() && names[(#[trigger] more[x]) as int]@ == t;
        if x < ids.len() {
            assert(more[x] == ids[x]);
            assert(nm[ids[x] as int]@ == t);
        }
    }
    if hit {
        assert(more[ids.len() as int] == nm.len());
        assert(names[more[ids.len() as int] as int]@ == name);
    }
}

/// The keys of tuples in order.
fn keys_of(tids: &Vec<Tid>) -> (r: Vec<u64>)
    requires
        forall|x: int| 0 <= x < tids@.len() ==> 1 <= (#[trigger] tids@[x]).offset <= 512,
        forall|x: int, y: int| 0 <= x < y < tids@.len() ==> (#[trigger] tids@[x]).before(#[trigger] tids@[y]),
    ensures
        rising(r@),
        r@.len() == tids@.len(),
        forall|x: int| 0 <= x < r@.len() ==> #[trigger] r@[x] == tids@[x].spec_key(),
{
    let mut out: Vec<u64> = Vec::new();
    let mut x: usize = 0;
    while x < tids.len()
        invariant
            x <= tids@.len(),
            out@.len() == x,
            forall|y: int| 0 <= y < tids@.len() ==> 1 <= (#[trigger] tids@[y]).offset <= 512,
            forall|y: int| 0 <= y < x ==> #[trigger] out@[y] == tids@[y].spec_key(),
        decreases tids@.len() - x,
    {
        let t: Tid = tids[x];
        proof {
            lemma_key_tid(t);
        }
        out.push(t.key());
        x = x + 1;
    }
    proof {
        assert forall|a: int, b: int| 0 <= a < b < out@.len() implies #[trigger] out@[a] < #[trigger] out@[b] by {
            lemma_key_order(tids@[a], tids@[b]);
        }
    }
    out
}

/// Every indexed tuple is one that a heap page can hold.
pub open spec fn on_heap(inputs: Seq<Input<'_>>) -> bool {
    forall|i: int, tid: Tid| 0 <= i < inputs.len() && #[trigger] inputs[i].0.indexed(tid) ==> tid.valid()
}

/// The keys of the live tuples of the first `n` segments.
spec fn are_keys(keys: Seq<u64>, inputs: Seq<Input<'_>>, n: int) -> bool {
    &&& rising(keys)
    &&& forall|k: int| 0 <= k < keys.len() ==> #[trigger] keys[k] < 0x200_0000_0000 && kept_tuples(inputs, n).contains(tid_of_key(keys[k] as int))
    &&& forall|tid: Tid| #[trigger] kept_tuples(inputs, n).contains(tid) ==> tid.valid() && keys.contains(tid.spec_key() as u64)
}

/// The keys of every live tuple.
fn live_keys(inputs: &Vec<(&Segment, Option<&[u64]>)>) -> (r: Vec<u64>)
    requires
        forall|i: int| 0 <= i < inputs@.len() ==> (#[trigger] inputs@[i]).0.wf(),
        on_heap(inputs@),
    ensures
        are_keys(r@, inputs@, inputs@.len() as int),
{
    let ghost n = inputs@.len() as int;
    let mut keys: Vec<u64> = Vec::new();
    let mut i: usize = 0;
    while i < inputs.len()
        invariant
            n == inputs@.len(),
            i <= n,
            forall|k: int| 0 <= k < n ==> (#[trigger] inputs@[k]).0.wf(),
            on_heap(inputs@),
            are_keys(keys@, inputs@, i as int),
        decreases n - i,
    {
        let ghost input: Input<'_> = inputs@[i as int];
        let tids: Vec<Tid> = inputs[i].0.live_docs(inputs[i].1);
        proof {
            assert forall|x: int| 0 <= x < tids@.len() implies (#[trigger] tids@[x]).valid() && kept_tuples(inputs@, i + 1).contains(tids@[x]) by {
                assert(tids@.contains(tids@[x]));
                assert(inputs@[i as int].0.indexed(tids@[x]));
                assert(live_doc(inputs@[i as int], tids@[x]));
            }
        }
        let more: Vec<u64> = keys_of(&tids);
        let ghost was = keys@;
        keys = union(keys.as_slice(), more.as_slice());
        proof {
            assert forall|tid: Tid| #[trigger] kept_tuples(inputs@, i + 1).contains(tid) implies tid.valid() && keys@.contains(tid.spec_key() as u64) by {
                let k = choose|k: int| 0 <= k < i + 1 && live_doc(#[trigger] inputs@[k], tid);
                assert(inputs@[k].0.indexed(tid));
                if k < i {
                    assert(kept_tuples(inputs@, i as int).contains(tid));
                    assert(was.contains(tid.spec_key() as u64));
                } else {
                    assert(tids@.contains(tid));
                    let x = tids@.index_of(tid);
                    lemma_key_tid(tid);
                    assert(more@[x] == tid.spec_key());
                    assert(more@.contains(tid.spec_key() as u64));
                }
            }
            assert forall|k: int| 0 <= k < keys@.len() implies #[trigger] keys@[k] < 0x200_0000_0000 && kept_tuples(inputs@, i + 1).contains(
                tid_of_key(keys@[k] as int),
            ) by {
                assert(keys@.contains(keys@[k]));
                if was.contains(keys@[k]) {
                    let y = was.index_of(keys@[k]);
                    let tid = tid_of_key(was[y] as int);
                    assert(kept_tuples(inputs@, i as int).contains(tid));
                    let z = choose|z: int| 0 <= z < i && live_doc(#[trigger] inputs@[z], tid);
                    assert(0 <= z < i + 1 && live_doc(inputs@[z], tid));
                } else {
                    let x = more@.index_of(keys@[k]);
                    lemma_key_tid(tids@[x]);
                    assert(kept_tuples(inputs@, i + 1).contains(tids@[x]));
                }
            }
        }
        i = i + 1;
    }
    keys
}

/// The names of a bucket.
fn names_of(names: &Vec<String>, ids: &Vec<usize>) -> (r: Vec<String>)
    requires
        forall|x: int| 0 <= x < ids@.len() ==> (#[trigger] ids@[x]) < names@.len(),
    ensures
        r@.len() == ids@.len(),
        strings_view(r@).to_set() == Set::new(|t: Seq<char>| labelled(names@, ids@, t)),
{
    let mut out: Vec<String> = Vec::new();
    let mut x: usize = 0;
    while x < ids.len()
        invariant
            x <= ids@.len(),
            out@.len() == x,
            forall|y: int| 0 <= y < ids@.len() ==> (#[trigger] ids@[y]) < names@.len(),
            forall|y: int| 0 <= y < x ==> (#[trigger] out@[y])@ == names@[ids@[y] as int]@,
        decreases ids@.len() - x,
    {
        out.push(copy_of(names[ids[x]].as_str()));
        x = x + 1;
    }
    proof {
        let all = strings_view(out@);
        let set = Set::new(|t: Seq<char>| labelled(names@, ids@, t));
        assert forall|t: Seq<char>| all.to_set().contains(t) <==> set.contains(t) by {
            if all.contains(t) {
                let y = all.index_of(t);
                assert(out@[y]@ == t);
                assert(names@[ids@[y] as int]@ == t);
            }
            if labelled(names@, ids@, t) {
                let y = choose|y: int| 0 <= y < ids@.len() && names@[(#[trigger] ids@[y]) as int]@ == t;
                assert(out@[y]@ == t);
                assert(all[y] == t);
            }
        }
        assert(all.to_set() =~= set);
    }
    out
}

/// Whether [`Segment::merge`] takes the segments.
pub fn can_merge(inputs: &Vec<(&Segment, Option<&[u64]>)>) -> (r: bool)
    requires
        forall|i: int| 0 <= i < inputs@.len() ==> (#[trigger] inputs@[i]).0.wf(),
    ensures
        r == (on_heap(inputs@) && mergeable(inputs@)),
{
    let mut sum: u128 = 0;
    let mut over: bool = false;
    let mut grams: bool = true;
    let mut i: usize = 0;
    while i < inputs.len()
        invariant
            i <= inputs@.len(),
            forall|k: int| 0 <= k < inputs@.len() ==> (#[trigger] inputs@[k]).0.wf(),
            over ==> postings_of(inputs@, i as int) > 0x40_0000_0000_0000,
            !over ==> sum == postings_of(inputs@, i as int) && sum <= 0x40_0000_0000_0000,
            postings_of(inputs@, i as int) >= 0,
            grams == forall|k: int| 0 <= k < i ==> (#[trigger] inputs@[k]).0.spec_meta().grams,
            forall|k: int, tid: Tid| 0 <= k < i && #[trigger] inputs@[k].0.indexed(tid) ==> tid.valid(),
        decreases inputs@.len() - i,
    {
        let tids: Vec<Tid> = inputs[i].0.live_docs(None);
        let mut x: usize = 0;
        while x < tids.len()
            invariant
                i < inputs@.len(),
                x <= tids@.len(),
                is_listing(tids@, inputs@[i as int].0.live_indexed(None)),
                forall|y: int| 0 <= y < x ==> (#[trigger] tids@[y]).valid(),
            decreases tids@.len() - x,
        {
            if tids[x].offset < 1 || tids[x].offset > MAX_OFFSET {
                proof {
                    let bad = tids@[x as int];
                    assert(tids@.contains(bad));
                    assert(inputs@[i as int].0.indexed(bad) && !bad.valid());
                }
                return false;
            }
            x = x + 1;
        }
        proof {
            assert forall|k: int, tid: Tid| 0 <= k < i + 1 && #[trigger] inputs@[k].0.indexed(tid) implies tid.valid() by {
                if k == i {
                    assert(inputs@[i as int].0.live_indexed(None).contains(tid));
                    assert(tids@.contains(tid));
                    let y = tids@.index_of(tid);
                    assert(tids@[y].valid());
                }
            }
        }
        let more: Option<u128> = count_postings(inputs[i].0);
        match more {
            Some(m) => {
                if !over {
                    sum = sum + m;
                    over = sum > 0x40_0000_0000_0000;
                }
            },
            None => {
                over = true;
            },
        }
        grams = grams && inputs[i].0.meta().grams;
        i = i + 1;
    }
    proof {
        lemma_weighed(merge_weight(inputs@), postings_of(inputs@, inputs@.len() as int));
    }
    if over {
        return false;
    }
    proof {
        let (w, p) = (merge_weight(inputs@), postings_of(inputs@, inputs@.len() as int));
        assert(grams == all_grams(inputs@));
        assert(w * p == if grams { p * 64 } else { p }) by (nonlinear_arith)
            requires
                w == if grams { 64int } else { 1int },
        ;
    }
    within_limit(if grams {
        sum * 64
    } else {
        sum
    })
}

/// A segment's postings, unless they are too many.
fn count_postings(seg: &Segment) -> (r: Option<u128>)
    requires
        seg.wf(),
    ensures
        seg.own_postings() >= 0,
        match r {
            Some(n) => n == seg.own_postings() && n <= 0x40_0000_0000_0000,
            None => seg.own_postings() > 0x40_0000_0000_0000,
        },
{
    let ts: Vec<(String, u64)> = seg.for_each_term();
    let mut n: u128 = 0;
    let mut i: usize = 0;
    proof {
        lemma_freqs(*seg, ts@, ts@.len() as int);
        assert(is_run(seg.values(), names_in(ts@)));
        assert forall|t: Seq<char>| #[trigger] seg.values().dom().contains(encode_utf8(t)) implies names_in(ts@).contains(t) by {
            let i = choose|i: int| 0 <= i < ts@.len() && (#[trigger] ts@[i]).0@ == t;
            assert(names_in(ts@)[i] == t);
        }
        seg.lemma_own_postings(names_in(ts@));
    }
    while i < ts.len()
        invariant
            i <= ts@.len(),
            n == freqs(ts@, i as int),
            n <= 0x40_0000_0000_0000,
            freqs(ts@, ts@.len() as int) == seg.own_postings(),
        decreases ts@.len() - i,
    {
        n = n + ts[i].1 as u128;
        i = i + 1;
        if n > 0x40_0000_0000_0000 {
            proof {
                lemma_freqs_mono(ts@, i as int, ts@.len() as int);
            }
            return None;
        }
    }
    Some(n)
}

proof fn lemma_freqs_mono(ts: Seq<(String, u64)>, a: int, b: int)
    requires
        0 <= a <= b <= ts.len(),
    ensures
        0 <= freqs(ts, a) <= freqs(ts, b),
    decreases b,
{
    if a < b {
        lemma_freqs_mono(ts, a, b - 1);
    } else if b > 0 {
        lemma_freqs_mono(ts, a - 1, b - 1);
    }
}


/// Whether that many postings are no more than a segment may hold.
pub(crate) fn within_limit(n: u128) -> (r: bool)
    ensures
        r == size_limit(n as int),
{
    n <= 0x40_0000_0000_0000 && n * 1000 + 0x1000_0000 <= usize::MAX as u128
}

impl Segment {
    /// Merge segments into one that has exactly their live tuples; `None` if
    /// there is none.
    pub fn merge(inputs: &Vec<(&Segment, Option<&[u64]>)>) -> (r: Option<Segment>)
        requires
            forall|i: int| 0 <= i < inputs@.len() ==> (#[trigger] inputs@[i]).0.wf(),
            on_heap(inputs@),
            mergeable(inputs@),
            u32::MAX * 512 + 0x1_0000 <= usize::MAX,
        ensures
            match r {
                Some(m) => is_merge(m, inputs@) && is_joined(m, inputs@),
                None => forall|tid: Tid| !#[trigger] kept_tuples(inputs@, inputs@.len() as int).contains(tid),
            },
    {
        let m: Merge<'_> = match Merge::new(inputs) {
            Some(m) => m,
            None => {
                return None;
            },
        };
        let all: MergedPart = m.part(None, None);
        let ghost one = all;
        proof {
            lemma_times(merge_weight(inputs@), all.size(), postings_of(inputs@, inputs@.len() as int));
        }
        let mut parts: Vec<MergedPart> = Vec::new();
        parts.push(all);
        proof {
            assert(parts@ =~= seq![one]);
            assert(parts_size(parts@, 0) == 0);
            assert(parts_size(parts@, 1) == one.size());
            assert forall|t: Seq<char>, tid: Tid| #[trigger] parts_have(parts@, 1, t, tid) <==> kept_in(inputs@, inputs@.len() as int, t, tid) by {
                assert(one.has(t, tid) <==> kept_in(inputs@, inputs@.len() as int, t, tid) && in_cut(encode_utf8(t), None, None));
                if one.has(t, tid) {
                    assert(parts@[0].has(t, tid));
                }
            }
        }
        Some(m.finish(parts))
    }
}

/// Whether all of them store grams.
fn with_grams(inputs: &Vec<(&Segment, Option<&[u64]>)>) -> (r: bool)
    ensures
        r == all_grams(inputs@),
{
    let mut i: usize = 0;
    while i < inputs.len()
        invariant
            i <= inputs@.len(),
            forall|k: int| 0 <= k < i ==> (#[trigger] inputs@[k]).0.spec_meta().grams,
        decreases inputs@.len() - i,
    {
        if !inputs[i].0.meta().grams {
            return false;
        }
        i = i + 1;
    }
    true
}

proof fn lemma_weighed(w: int, p: int)
    requires
        w >= 1,
        p >= 0,
    ensures
        w * p >= p,
{
    assert(w * p >= p) by (nonlinear_arith)
        requires
            w >= 1,
            p >= 0,
    ;
}

proof fn lemma_times(w: int, a: int, b: int)
    requires
        0 <= w,
        a <= b,
    ensures
        w * a <= w * b,
{
    assert(w * a <= w * b) by (nonlinear_arith)
        requires
            0 <= w,
            a <= b,
    ;
}

/// What is kept may be stored with grams if all of it was.
proof fn lemma_kept_ready(inputs: Seq<Input<'_>>, n: int, t: Seq<char>, tid: Tid)
    requires
        n == inputs.len(),
        forall|i: int| 0 <= i < inputs.len() ==> (#[trigger] inputs[i]).0.wf(),
        kept_in(inputs, n, t, tid),
    ensures
        takes(all_grams(inputs), t),
{
    let i = choose|i: int| 0 <= i < n && live_in(#[trigger] inputs[i], t, tid);
    if all_grams(inputs) {
        inputs[i].0.lemma_gram_ready(t, tid);
    }
}

/// The segment holds these documents, and counts them and their terms.
pub open spec fn counts_docs(m: Segment, docs: Seq<DocTerms>) -> bool {
    &&& docs_ascend(docs)
    &&& m.is_of(docs)
    &&& m.spec_meta().doc_count == docs.len()
    &&& m.spec_meta().posting_count == distinct_sum(docs, docs.len() as int)
}

/// The segment covers the blocks from the first tuple's to the last one's.
pub open spec fn spans(m: Segment, kept: Set<Tid>) -> bool {
    &&& forall|t: Tid| #[trigger] kept.contains(t) ==> m.spec_meta().first_block <= t.block < m.spec_meta().end_block
    &&& exists|t: Tid| #[trigger] kept.contains(t) && t.block == m.spec_meta().first_block
    &&& exists|t: Tid| #[trigger] kept.contains(t) && t.block + 1 == m.spec_meta().end_block
}

/// A tuple with the names of its bucket.
spec fn bucket_doc(keys: Seq<u64>, names: Seq<String>, at: Seq<Vec<usize>>, k: int) -> DocTerms {
    (tid_of_key(keys[k] as int), Set::new(|t: Seq<char>| labelled(names, at[k]@, t)))
}

proof fn lemma_in_block(inputs: Seq<Input<'_>>, n: int, tid: Tid)
    requires
        forall|i: int| 0 <= i < inputs.len() ==> (#[trigger] inputs[i]).0.wf(),
        n == inputs.len(),
        kept_tuples(inputs, n).contains(tid),
    ensures
        tid.block < u32::MAX,
{
    let i = choose|i: int| 0 <= i < n && live_doc(#[trigger] inputs[i], tid);
    inputs[i].0.lemma_indexed_range(tid);
}

proof fn lemma_held_none(at: Seq<Vec<usize>>, n: int)
    requires
        0 <= n <= at.len(),
        forall|k: int| 0 <= k < at.len() ==> (#[trigger] at[k])@.len() == 0,
    ensures
        held(at, n) == 0,
    decreases n,
{
    if n > 0 {
        lemma_held_none(at, n - 1);
    }
}

// ---------------------------------------------------------------------------
// Laws
// ---------------------------------------------------------------------------

/// However a merge is cut by term range, its parts have what the segments have
/// in live tuples: every term falls into one of them.
pub proof fn parts_make_the_whole(inputs: Seq<Input<'_>>, parts: Seq<MergedPart>, cuts: Seq<Vec<u8>>, t: Seq<char>, tid: Tid)
    requires
        cuts_ascend(cuts),
        parts.len() == cuts.len() + 1,
        forall|i: int| 0 <= i < parts.len() ==> is_part(#[trigger] parts[i], inputs, lower_cut(cuts, i), upper_cut(cuts, i)),
    ensures
        parts_have(parts, parts.len() as int, t, tid) <==> kept_in(inputs, inputs.len() as int, t, tid),
        forall|i: int, j: int| 0 <= i < j < parts.len() && #[trigger] parts[i].has(t, tid) ==> !#[trigger] parts[j].has(t, tid),
{
    let k = encode_utf8(t);
    if kept_in(inputs, inputs.len() as int, t, tid) {
        let i = lemma_cut_of(cuts, k, cuts.len() as int);
        assert(is_part(parts[i], inputs, lower_cut(cuts, i), upper_cut(cuts, i)));
        assert(parts[i].has(t, tid));
    }
    if parts_have(parts, parts.len() as int, t, tid) {
        let i = choose|i: int| 0 <= i < parts.len() && (#[trigger] parts[i]).has(t, tid);
        assert(is_part(parts[i], inputs, lower_cut(cuts, i), upper_cut(cuts, i)));
    }
    assert forall|i: int, j: int| 0 <= i < j < parts.len() && #[trigger] parts[i].has(t, tid) implies !#[trigger] parts[j].has(t, tid) by {
        assert(is_part(parts[i], inputs, lower_cut(cuts, i), upper_cut(cuts, i)));
        assert(is_part(parts[j], inputs, lower_cut(cuts, j), upper_cut(cuts, j)));
        if parts[j].has(t, tid) {
            let (a, b) = (cuts[i]@, cuts[j - 1]@);
            assert(bytes_less(k, a) && !bytes_less(k, b));
            if i < j - 1 {
                lemma_bytes_less_trans(k, a, b);
            }
        }
    }
}

/// Where part `i` starts.
pub open spec fn lower_cut(cuts: Seq<Vec<u8>>, i: int) -> Option<Seq<u8>> {
    if i == 0 {
        None
    } else {
        Some(cuts[i - 1]@)
    }
}

/// Where part `i` ends.
pub open spec fn upper_cut(cuts: Seq<Vec<u8>>, i: int) -> Option<Seq<u8>> {
    if i == cuts.len() {
        None
    } else {
        Some(cuts[i]@)
    }
}

proof fn lemma_cut_of(cuts: Seq<Vec<u8>>, k: Seq<u8>, n: int) -> (i: int)
    requires
        0 <= n <= cuts.len(),
        n < cuts.len() ==> bytes_less(k, cuts[n]@),
    ensures
        0 <= i <= n,
        in_cut(k, lower_cut(cuts, i), upper_cut(cuts, i)),
    decreases n,
{
    if n == 0 || !bytes_less(k, cuts[n - 1]@) {
        n
    } else {
        lemma_cut_of(cuts, k, n - 1)
    }
}

/// Two listings of a set are the same.
proof fn lemma_listing_unique(a: Seq<Tid>, b: Seq<Tid>, set: Set<Tid>)
    requires
        is_listing(a, set),
        is_listing(b, set),
    ensures
        a == b,
    decreases a.len(),
{
    if a.len() == 0 {
        if b.len() > 0 {
            assert(b.contains(b[0]));
            assert(a.contains(b[0]));
        }
        assert(a =~= b);
    } else {
        let (x, y) = (a.last(), b.last());
        assert(a.contains(x));
        assert(b.contains(x));
        assert(b.contains(y));
        assert(a.contains(y));
        let (i, j) = (b.index_of(x), a.index_of(y));
        if i < b.len() - 1 {
            assert(b[i].before(b[b.len() - 1]));
            if j < a.len() - 1 {
                assert(a[j].before(a[a.len() - 1]));
            }
        }
        assert(x == y);
        let (a2, b2) = (a.drop_last(), b.drop_last());
        let rest = set.remove(x);
        assert forall|t: Tid| #[trigger] a2.contains(t) <==> rest.contains(t) by {
            if a2.contains(t) {
                let k = a2.index_of(t);
                assert(a[k].before(a[a.len() - 1]));
                assert(a.contains(a[k]));
            }
            if rest.contains(t) {
                assert(a.contains(t));
                let k = a.index_of(t);
                assert(a2[k] == t);
            }
        }
        assert forall|t: Tid| #[trigger] b2.contains(t) <==> rest.contains(t) by {
            if b2.contains(t) {
                let k = b2.index_of(t);
                assert(b[k].before(b[b.len() - 1]));
                assert(b.contains(b[k]));
            }
            if rest.contains(t) {
                assert(b.contains(t));
                let k = b.index_of(t);
                assert(b2[k] == t);
            }
        }
        assert forall|p: int, q: int| 0 <= p < q < a2.len() implies (#[trigger] a2[p]).before(#[trigger] a2[q]) by {
            assert(a[p].before(a[q]));
        }
        assert forall|p: int, q: int| 0 <= p < q < b2.len() implies (#[trigger] b2[p]).before(#[trigger] b2[q]) by {
            assert(b[p].before(b[q]));
        }
        lemma_listing_unique(a2, b2, rest);
        assert(a =~= a2.push(x));
        assert(b =~= b2.push(y));
    }
}

/// The tuples of documents.
spec fn tids_in(docs: Seq<DocTerms>) -> Seq<Tid> {
    Seq::new(docs.len(), |i: int| docs[i].0)
}

/// Documents in order are listed by their tuples, each with its terms.
proof fn lemma_docs_listing(m: Segment, docs: Seq<DocTerms>, kept: Set<Tid>)
    requires
        docs_ascend(docs),
        m.is_of(docs),
        forall|tid: Tid| #[trigger] m.indexed(tid) <==> kept.contains(tid),
    ensures
        is_listing(tids_in(docs), kept),
        forall|i: int| 0 <= i < docs.len() ==> (#[trigger] docs[i]).1 =~= m.terms_at(docs[i].0),
{
    let ts = tids_in(docs);
    assert forall|i: int, j: int| 0 <= i < j < ts.len() implies (#[trigger] ts[i]).before(#[trigger] ts[j]) by {
        assert(docs[i].0.before(docs[j].0));
    }
    assert forall|t: Tid| #[trigger] ts.contains(t) <==> kept.contains(t) by {
        assert(m.indexed(t) <==> doc_added(docs, t));
        if ts.contains(t) {
            let i = ts.index_of(t);
            assert(docs[i].0 == t);
        }
        if doc_added(docs, t) {
            let i = choose|i: int| 0 <= i < docs.len() && (#[trigger] docs[i]).0 == t;
            assert(ts[i] == t);
        }
    }
    assert forall|i: int| 0 <= i < docs.len() implies (#[trigger] docs[i]).1 =~= m.terms_at(docs[i].0) by {
        let tid = docs[i].0;
        assert forall|t: Seq<char>| docs[i].1.contains(t) <==> m.terms_at(tid).contains(t) by {
            assert(m.has(t, tid) <==> doc_has(docs, t, tid));
            if doc_has(docs, t, tid) {
                let j = choose|j: int| 0 <= j < docs.len() && (#[trigger] docs[j]).0 == tid && docs[j].1.contains(t);
                if i < j {
                    assert(docs[i].0.before(docs[j].0));
                }
                if j < i {
                    assert(docs[j].0.before(docs[i].0));
                }
            }
        }
    }
}

proof fn lemma_same_sum(a: Seq<DocTerms>, b: Seq<DocTerms>, n: int)
    requires
        forall|i: int| 0 <= i < n ==> (#[trigger] a[i]).1 == b[i].1,
    ensures
        distinct_sum(a, n) == distinct_sum(b, n),
    decreases n,
{
    if n > 0 {
        lemma_same_sum(a, b, n - 1);
        assert(a[n - 1].1 == b[n - 1].1);
    }
}

/// Any two merges of the same segments, whole or in parts, hold the same terms
/// in the same tuples, over the same blocks and with the same counts.
pub proof fn merges_agree(a: Segment, b: Segment, inputs: Seq<Input<'_>>)
    requires
        is_merge(a, inputs),
        is_joined(a, inputs),
        is_merge(b, inputs),
        is_joined(b, inputs),
    ensures
        forall|tid: Tid| a.terms_at(tid) =~= #[trigger] b.terms_at(tid),
        forall|tid: Tid| a.indexed(tid) == #[trigger] b.indexed(tid),
        a.spec_meta().first_block == b.spec_meta().first_block,
        a.spec_meta().end_block == b.spec_meta().end_block,
        a.spec_meta().doc_count == b.spec_meta().doc_count,
        a.spec_meta().posting_count == b.spec_meta().posting_count,
        a.spec_meta().grams == b.spec_meta().grams,
{
    let n = inputs.len() as int;
    let kept = kept_tuples(inputs, n);
    assert forall|tid: Tid| a.terms_at(tid) =~= #[trigger] b.terms_at(tid) by {
        assert forall|t: Seq<char>| a.terms_at(tid).contains(t) <==> b.terms_at(tid).contains(t) by {
            assert(a.has(t, tid) <==> kept_in(inputs, n, t, tid));
            assert(b.has(t, tid) <==> kept_in(inputs, n, t, tid));
        }
    }
    let da = choose|d: Seq<DocTerms>| #[trigger] counts_docs(a, d);
    let db = choose|d: Seq<DocTerms>| #[trigger] counts_docs(b, d);
    lemma_docs_listing(a, da, kept);
    lemma_docs_listing(b, db, kept);
    lemma_listing_unique(tids_in(da), tids_in(db), kept);
    assert forall|i: int| 0 <= i < da.len() implies (#[trigger] da[i]).1 == db[i].1 by {
        assert(tids_in(da)[i] == da[i].0 && tids_in(db)[i] == db[i].0);
        assert(da[i].1 =~= a.terms_at(da[i].0));
        assert(db[i].1 =~= b.terms_at(db[i].0));
        assert(a.terms_at(da[i].0) =~= b.terms_at(da[i].0));
    }
    assert(tids_in(da).len() == tids_in(db).len());
    lemma_same_sum(da, db, da.len() as int);
    let (fa, fb) = (
        choose|t: Tid| #[trigger] kept.contains(t) && t.block == a.spec_meta().first_block,
        choose|t: Tid| #[trigger] kept.contains(t) && t.block == b.spec_meta().first_block,
    );
    let (ea, eb) = (
        choose|t: Tid| #[trigger] kept.contains(t) && t.block + 1 == a.spec_meta().end_block,
        choose|t: Tid| #[trigger] kept.contains(t) && t.block + 1 == b.spec_meta().end_block,
    );
    assert(kept.contains(fa) && kept.contains(fb) && kept.contains(ea) && kept.contains(eb));
}

/// Merging changes no answer: a live tuple that is in one input alone matches
/// the same plans in the merged segment.
pub proof fn merging_keeps_matches(m: Segment, inputs: Seq<Input<'_>>, i: int, p: PlanView, tid: Tid)
    requires
        is_merge(m, inputs),
        0 <= i < inputs.len(),
        alive(inputs[i].0.dir(), inputs[i].1, tid),
        forall|j: int, t: Seq<char>| 0 <= j < inputs.len() && j != i ==> !#[trigger] live_in(inputs[j], t, tid),
    ensures
        plan_matches(p, m.terms_at(tid)) == plan_matches(p, inputs[i].0.terms_at(tid)),
{
    assert forall|t: Seq<char>| m.terms_at(tid).contains(t) <==> inputs[i].0.terms_at(tid).contains(t) by {
        assert(m.has(t, tid) <==> kept_in(inputs, inputs.len() as int, t, tid));
        if inputs[i].0.has(t, tid) {
            assert(live_in(inputs[i], t, tid));
        }
        if kept_in(inputs, inputs.len() as int, t, tid) {
            let j = choose|j: int| 0 <= j < inputs.len() && live_in(#[trigger] inputs[j], t, tid);
            assert(j == i);
        }
    }
    assert(m.terms_at(tid) =~= inputs[i].0.terms_at(tid));
}

/// Merging loses no live tuple, and invents none: the merged segment indexes a
/// tuple exactly if an input indexed it and it is live there.
pub proof fn merging_keeps_live(m: Segment, inputs: Seq<Input<'_>>, tid: Tid)
    requires
        is_merge(m, inputs),
    ensures
        m.indexed(tid) <==> exists|i: int| 0 <= i < inputs.len() && live_doc(#[trigger] inputs[i], tid),
{
}

/// Merging brings no deleted tuple back: one that is dead wherever it is
/// indexed is not in the merged segment, and has no term there.
pub proof fn merging_drops_dead(m: Segment, inputs: Seq<Input<'_>>, tid: Tid)
    requires
        is_merge(m, inputs),
        forall|j: int| 0 <= j < inputs.len() ==> !alive((#[trigger] inputs[j]).0.dir(), inputs[j].1, tid),
    ensures
        !m.indexed(tid),
        m.terms_at(tid) == Set::<Seq<char>>::empty(),
{
    assert forall|t: Seq<char>| !m.terms_at(tid).contains(t) by {
        assert(m.has(t, tid) <==> kept_in(inputs, inputs.len() as int, t, tid));
    }
    assert(m.terms_at(tid) =~= Set::<Seq<char>>::empty());
}

} // verus!
