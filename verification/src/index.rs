//! An index = an ordered list of segments over disjoint, ascending block
//! ranges.
//!
//! The initial build splits the heap into `n` block ranges and builds one
//! immutable segment per range. Because segments never overlap, query results
//! are the concatenation of per-segment results, still in heap (tid) order.

use vstd::prelude::*;
use vstd::utf8::encode_utf8;
use crate::drive::is_listing;
use crate::plan::{plan_matches, Plan, PlanView};
use crate::segment::{
    are_sizes, distinct_sum, doc_added, doc_has, docs_ascend, lemma_distinct_push, runnable, runnable_needs_terms, size_limit, DocTerms, Segment, SegmentBuilder, TermSize,
};
use crate::text::fits;
use crate::tid::Tid;
use crate::tokenize::terms_of;
use crate::wire::term_tids;

verus! {

/// What documents say: each tuple with its distinct terms.
pub open spec fn docs_view(docs: Seq<(Tid, String)>) -> Seq<DocTerms> {
    docs.map_values(|d: (Tid, String)| (d.0, terms_of(d.1@).to_set()))
}

/// The lengths of the first `n` texts, summed.
pub open spec fn text_total(docs: Seq<(Tid, String)>, n: int) -> int
    decreases n,
{
    if n <= 0 {
        0
    } else {
        text_total(docs, n - 1) + docs[n - 1].1@.len()
    }
}

/// Documents that an index can be built from: valid tuples in heap order, of
/// a size that fits the machine.
pub open spec fn buildable(docs: Seq<(Tid, String)>) -> bool {
    &&& docs_ascend(docs_view(docs))
    &&& forall|i: int| 0 <= i < docs.len() ==> (#[trigger] docs[i]).0.valid() && docs[i].0.block < u32::MAX && fits(docs[i].1@)
    &&& size_limit(text_total(docs, docs.len() as int))
    &&& forall|i: int| 0 <= i < docs.len() ==> ((#[trigger] docs[i]).0.block + 1) * 512 + 0x1_0000 <= usize::MAX
    &&& 0x1_0000 <= usize::MAX
}

/// A list of segments.
pub struct Index {
    segments: Vec<Segment>,
}

impl Index {
    pub closed spec fn spec_segments(&self) -> Seq<Segment> {
        self.segments@
    }

    /// The segments are whole.
    pub open spec fn wf(&self) -> bool {
        forall|i: int| 0 <= i < self.spec_segments().len() ==> (#[trigger] self.spec_segments()[i]).wf()
    }

    /// Every tuple is in one segment at most.
    pub open spec fn apart(&self) -> bool {
        forall|i: int, j: int, x: Seq<char>, y: Seq<char>, t: Tid|
            0 <= i < j < self.spec_segments().len() && #[trigger] self.spec_segments()[i].has(x, t) ==> !#[trigger] self.spec_segments()[j].has(y, t)
    }

    /// Segments over disjoint, ascending ranges have no tuple in common.
    pub proof fn lemma_apart(&self)
        requires
            self.wf(),
            ranges_ascend(self.spec_segments()),
        ensures
            self.apart(),
    {
        let s = self.spec_segments();
        assert forall|i: int, j: int, x: Seq<char>, y: Seq<char>, t: Tid| 0 <= i < j < s.len() && #[trigger] s[i].has(x, t) implies !#[trigger] s[j].has(
            y,
            t,
        ) by {
            s[i].lemma_in_range(x, t);
            if s[j].has(y, t) {
                s[j].lemma_in_range(y, t);
            }
            assert(s[i].spec_meta().end_block <= s[j].spec_meta().first_block);
        }
    }

    /// Whether tuple `tid` has the term `t`.
    pub open spec fn has(&self, t: Seq<char>, tid: Tid) -> bool {
        exists|i: int| 0 <= i < self.spec_segments().len() && (#[trigger] self.spec_segments()[i]).has(t, tid)
    }

    /// The terms of tuple `tid`.
    pub open spec fn terms_at(&self, tid: Tid) -> Set<Seq<char>> {
        Set::new(|t: Seq<char>| self.has(t, tid))
    }

    /// The index holds exactly these documents.
    pub open spec fn is_of(&self, docs: Seq<DocTerms>) -> bool {
        forall|t: Seq<char>, tid: Tid| #[trigger] self.has(t, tid) <==> doc_has(docs, t, tid)
    }

    /// No segment stores grams.
    pub open spec fn plain(&self) -> bool {
        forall|i: int| 0 <= i < self.spec_segments().len() ==> !(#[trigger] self.spec_segments()[i]).spec_meta().grams
    }

    /// What a search for a plan gives: its matches, and with grams candidates
    /// for its fragments.
    pub open spec fn found(&self, p: PlanView) -> Set<Tid> {
        Set::new(|t: Tid| exists|i: int| 0 <= i < self.spec_segments().len() && (#[trigger] self.spec_segments()[i]).found(p).contains(t))
    }

    /// The matches of a plan.
    pub open spec fn matching(&self, p: PlanView) -> Set<Tid> {
        Set::new(|t: Tid| plan_matches(p, self.terms_at(t)))
    }

    pub fn from_segments(segments: Vec<Segment>) -> (r: Self)
        requires
            forall|i: int| 0 <= i < segments@.len() ==> (#[trigger] segments@[i]).wf(),
        ensures
            r.wf(),
            r.spec_segments() == segments@,
    {
        Index { segments }
    }

    /// The block ranges of `n` segments over `docs`: equal shares, empty ones
    /// left out.
    #[verifier::spinoff_prover]
    #[verifier::rlimit(60)]
    pub fn bounds(docs: &Vec<(Tid, String)>, n_segments: usize) -> (r: Vec<(u32, u32)>)
        requires
            0 < n_segments <= u32::MAX,
            buildable(docs@),
        ensures
            r@.len() <= n_segments,
            bounds_ok(r@, end_block(docs@)),
            r@ == shares(end_block(docs@), n_segments as int, n_segments as int),
    {
        let ghost eb = end_block(docs@);
        let n: usize = docs.len();
        let end: u64 = if n == 0 {
            0
        } else {
            docs[n - 1].0.block as u64 + 1
        };
        let mut out: Vec<(u32, u32)> = Vec::new();
        let mut i: usize = 0;
        let mut lo: u32 = 0;
        proof {
            lemma_share(eb, 0, n_segments as int);
        }
        while i < n_segments
            invariant
                end == eb,
                eb <= u32::MAX,
                0 < n_segments <= u32::MAX,
                i <= n_segments,
                lo == share(eb, i as int, n_segments as int),
                bounds_ok(out@, lo as int),
                out@.len() <= i,
                out@ == shares(eb, i as int, n_segments as int),
            decreases n_segments - i,
        {
            proof {
                lemma_share(eb, i as int, n_segments as int);
                lemma_share(eb, i + 1, n_segments as int);
            }
            let hi: u32 = share_of(end, i as u64 + 1, n_segments as u64);
            if lo < hi {
                out.push((lo, hi));
            }
            lo = hi;
            i = i + 1;
        }
        proof {
            lemma_share(eb, n_segments as int, n_segments as int);
            assert(eb * n_segments / (n_segments as int) == eb) by (nonlinear_arith)
                requires
                    0 < n_segments,
            ;
        }
        out
    }

    /// The segment of the documents in blocks `lo..hi`.
    pub fn build_range(docs: &Vec<(Tid, String)>, lo: u32, hi: u32) -> (r: (Segment, Vec<TermSize>))
        requires
            buildable(docs@),
            lo <= hi,
            hi * 512 + 0x1_0000 <= usize::MAX,
        ensures
            r.0.wf(),
            forall|t: Seq<char>, tid: Tid| #[trigger] r.0.has(t, tid) <==> doc_has(docs_view(docs@), t, tid) && lo <= tid.block < hi,
            r.0.spec_meta().first_block == lo,
            r.0.spec_meta().end_block == hi,
            r.0.spec_meta().doc_count == docs_within(docs@, lo as int, hi as int, docs@.len() as int),
            r.0.spec_meta().posting_count == terms_within(docs_view(docs@), lo as int, hi as int, docs@.len() as int),
            !r.0.spec_meta().grams,
            forall|tid: Tid| #[trigger] r.0.indexed(tid) <==> doc_added(docs_view(docs@), tid) && lo <= tid.block < hi,
            sized(r.1@, r.0),
    {
        let ghost dv = docs_view(docs@);
        let mut b: SegmentBuilder = SegmentBuilder::new(lo, hi);
        let mut i: usize = 0;
        let ghost mut kept: Seq<DocTerms> = Seq::empty();
        proof {
            lemma_text_total(docs@, 0, docs@.len() as int);
        }
        while i < docs.len()
            invariant
                buildable(docs@),
                dv == docs_view(docs@),
                i <= docs@.len(),
                b.wf(),
                b.range() == (lo, hi),
                !b.is_open(),
                !b.spec_grams(),
                b.docs() == kept,
                distinct_sum(kept, kept.len() as int) == terms_within(dv, lo as int, hi as int, i as int),
                forall|tid: Tid| #[trigger] doc_added(kept, tid) <==> doc_added(dv.take(i as int), tid) && lo <= tid.block < hi,
                kept.len() == docs_within(docs@, lo as int, hi as int, i as int),
                kept.len() <= i,
                b.size() <= text_total(docs@, i as int),
                forall|t: Seq<char>, tid: Tid| #[trigger] doc_has(kept, t, tid) <==> doc_has(dv.take(i as int), t, tid) && lo <= tid.block < hi,
                forall|k: int| 0 <= k < kept.len() ==> exists|j: int| 0 <= j < i && (#[trigger] kept[k]) == dv[j],
            decreases docs@.len() - i,
        {
            let d: &(Tid, String) = &docs[i];
            let ghost was = kept;
            let ghost e = dv[i as int];
            proof {
                assert(e == (d.0, terms_of(d.1@).to_set()));
                assert(docs@[i as int].0.valid());
                lemma_text_total(docs@, i + 1, docs@.len() as int);
                assert(dv.take(i + 1) =~= dv.take(i as int).push(e));
            }
            if lo <= d.0.block && d.0.block < hi {
                proof {
                    if kept.len() > 0 {
                        let j = choose|j: int| 0 <= j < i && kept[kept.len() - 1] == dv[j];
                        assert(dv[j].0.before(dv[i as int].0));
                    }
                }
                b.add(d.0, d.1.as_str());
                proof {
                    kept = kept.push(e);
                    lemma_distinct_push(was, e, was.len() as int);
                    assert forall|k: int| 0 <= k < kept.len() implies exists|j: int| 0 <= j < i + 1 && (#[trigger] kept[k]) == dv[j] by {
                        if k < was.len() {
                            let j = choose|j: int| 0 <= j < i && was[k] == dv[j];
                            assert(kept[k] == dv[j]);
                        } else {
                            assert(kept[k] == dv[i as int]);
                        }
                    }
                }
            }
            proof {
                assert forall|tid: Tid| #[trigger] doc_added(kept, tid) <==> doc_added(dv.take(i + 1), tid) && lo <= tid.block < hi by {
                    assert(doc_added(was, tid) <==> doc_added(dv.take(i as int), tid) && lo <= tid.block < hi);
                    lemma_added_push(dv.take(i as int), e, tid);
                    lemma_added_push(was, e, tid);
                }
                assert forall|t: Seq<char>, tid: Tid| #[trigger] doc_has(kept, t, tid) <==> doc_has(dv.take(i + 1), t, tid) && lo <= tid.block < hi by {
                    assert(doc_has(was, t, tid) <==> doc_has(dv.take(i as int), t, tid) && lo <= tid.block < hi);
                    crate::segment::lemma_doc_has_push(dv.take(i as int), e, t, tid);
                    crate::segment::lemma_doc_has_push(was, e, t, tid);
                }
            }
            i = i + 1;
        }
        let r: (Segment, Vec<TermSize>) = b.finish_with_stats();
        proof {
            assert(dv.take(i as int) =~= dv);
            assert forall|t: Seq<char>, tid: Tid| #[trigger] r.0.has(t, tid) <==> doc_has(dv, t, tid) && lo <= tid.block < hi by {
                assert(r.0.has(t, tid) <==> doc_has(kept, t, tid));
            }
        }
        r
    }

    /// Build from `docs`, which must be sorted by tid (strictly ascending),
    /// using `n_segments` block ranges.
    pub fn build(docs: &Vec<(Tid, String)>, n_segments: usize) -> (r: Self)
        requires
            0 < n_segments <= u32::MAX,
            buildable(docs@),
        ensures
            r.wf(),
            ranges_ascend(r.spec_segments()),
            r.is_of(docs_view(docs@)),
            r.plain(),
            r.spec_segments().len() <= n_segments,
            segments_of(r.spec_segments(), docs@, shares(end_block(docs@), n_segments as int, n_segments as int)),
    {
        Self::build_with_stats(docs, n_segments).0
    }

    /// Like [`build`](Self::build), also returning the size of each segment's
    /// terms.
    pub fn build_with_stats(docs: &Vec<(Tid, String)>, n_segments: usize) -> (r: (Self, Vec<Vec<TermSize>>))
        requires
            0 < n_segments <= u32::MAX,
            buildable(docs@),
        ensures
            r.0.wf(),
            ranges_ascend(r.0.spec_segments()),
            r.0.is_of(docs_view(docs@)),
            r.0.plain(),
            r.0.spec_segments().len() <= n_segments,
            r.1@.len() == r.0.spec_segments().len(),
            segments_of(r.0.spec_segments(), docs@, shares(end_block(docs@), n_segments as int, n_segments as int)),
            forall|k: int| 0 <= k < r.1@.len() ==> sized(#[trigger] r.1@[k]@, r.0.spec_segments()[k]),
    {
        let ghost dv = docs_view(docs@);
        let ghost eb = end_block(docs@);
        let bounds: Vec<(u32, u32)> = Self::bounds(docs, n_segments);
        let mut segments: Vec<Segment> = Vec::new();
        let mut sizes: Vec<Vec<TermSize>> = Vec::new();
        let mut i: usize = 0;
        proof {
            lemma_end_block(docs@);
        }
        while i < bounds.len()
            invariant
                buildable(docs@),
                dv == docs_view(docs@),
                eb == end_block(docs@),
                eb * 512 + 0x1_0000 <= usize::MAX,
                bounds_ok(bounds@, eb),
                bounds@.len() <= n_segments,
                i <= bounds@.len(),
                segments@.len() == i,
                sizes@.len() == i,
                forall|k: int| 0 <= k < i ==> {
                    &&& (#[trigger] segments@[k]).wf()
                    &&& !segments@[k].spec_meta().grams
                    &&& segments@[k].spec_meta().first_block == bounds@[k].0
                    &&& segments@[k].spec_meta().end_block == bounds@[k].1
                    &&& segments@[k].spec_meta().doc_count == docs_within(docs@, bounds@[k].0 as int, bounds@[k].1 as int, docs@.len() as int)
                },
                forall|k: int| 0 <= k < i ==> sized(#[trigger] sizes@[k]@, segments@[k]),
                forall|k: int, t: Seq<char>, tid: Tid| 0 <= k < i ==> (#[trigger] segments@[k].has(t, tid) <==> doc_has(dv, t, tid) && bounds@[k].0 <= tid.block < bounds@[k].1),
            decreases bounds@.len() - i,
        {
            let (lo, hi): (u32, u32) = bounds[i];
            proof {
                lemma_bound_below(bounds@, eb, i as int);
            }
            let (seg, size): (Segment, Vec<TermSize>) = Self::build_range(docs, lo, hi);
            segments.push(seg);
            sizes.push(size);
            i = i + 1;
        }
        proof {
            assert(ranges_ascend(segments@)) by {
                assert forall|a: int, b: int| 0 <= a < b < segments@.len() implies (#[trigger] segments@[a]).spec_meta().end_block <= (#[trigger] segments@[b]).spec_meta().first_block by {
                    lemma_bounds_order(bounds@, eb, a, b);
                }
            }
        }
        let r: Index = Index::from_segments(segments);
        proof {
            assert forall|t: Seq<char>, tid: Tid| #[trigger] r.has(t, tid) <==> doc_has(dv, t, tid) by {
                if r.has(t, tid) {
                    let k = choose|k: int| 0 <= k < r.spec_segments().len() && (#[trigger] r.spec_segments()[k]).has(t, tid);
                    assert(segments@[k].has(t, tid));
                }
                if doc_has(dv, t, tid) {
                    let j = choose|j: int| 0 <= j < dv.len() && (#[trigger] dv[j]).0 == tid && dv[j].1.contains(t);
                    lemma_below_end(docs@, j);
                    let k = lemma_bound_of(bounds@, eb, tid.block as int);
                    assert(segments@[k].has(t, tid));
                    assert(r.spec_segments()[k].has(t, tid));
                }
            }
        }
        (r, sizes)
    }

    pub fn segments(&self) -> (r: &Vec<Segment>)
        ensures
            r@ == self.spec_segments(),
    {
        &self.segments
    }

    /// Bytes of all segments.
    pub fn size_bytes(&self) -> (r: usize)
        requires
            self.wf(),
            sizes_sum(self.spec_segments(), self.spec_segments().len() as int) <= usize::MAX,
        ensures
            r == sizes_sum(self.spec_segments(), self.spec_segments().len() as int),
    {
        let mut n: usize = 0;
        let mut i: usize = 0;
        while i < self.segments.len()
            invariant
                self.wf(),
                i <= self.segments@.len(),
                sizes_sum(self.segments@, self.segments@.len() as int) <= usize::MAX,
                n == sizes_sum(self.segments@, i as int),
            decreases self.segments@.len() - i,
        {
            proof {
                assert(self.spec_segments()[i as int].wf());
                lemma_sizes_mono(self.segments@, i + 1, self.segments@.len() as int);
                lemma_sizes_mono(self.segments@, i as int, i as int);
            }
            n = n + self.segments[i].size_bytes();
            i = i + 1;
        }
        n
    }

    /// Documents of all segments.
    pub fn doc_count(&self) -> (r: u64)
        requires
            counts_sum(self.spec_segments(), self.spec_segments().len() as int) <= u64::MAX,
        ensures
            r == counts_sum(self.spec_segments(), self.spec_segments().len() as int),
    {
        let mut n: u64 = 0;
        let mut i: usize = 0;
        while i < self.segments.len()
            invariant
                i <= self.segments@.len(),
                counts_sum(self.segments@, self.segments@.len() as int) <= u64::MAX,
                n == counts_sum(self.segments@, i as int),
            decreases self.segments@.len() - i,
        {
            proof {
                lemma_counts_mono(self.segments@, i + 1, self.segments@.len() as int);
            }
            n = n + self.segments[i].meta().doc_count;
            i = i + 1;
        }
        n
    }

    /// Document frequency of `term` across all segments.
    pub fn doc_freq(&self, term: &str) -> (r: u64)
        requires
            self.wf(),
            freq_sum(self.spec_segments(), term@, self.spec_segments().len() as int) <= u64::MAX,
        ensures
            r == freq_sum(self.spec_segments(), term@, self.spec_segments().len() as int),
    {
        let mut n: u64 = 0;
        let mut i: usize = 0;
        while i < self.segments.len()
            invariant
                self.wf(),
                i <= self.segments@.len(),
                freq_sum(self.segments@, term@, self.segments@.len() as int) <= u64::MAX,
                n == freq_sum(self.segments@, term@, i as int),
            decreases self.segments@.len() - i,
        {
            proof {
                assert(self.spec_segments()[i as int].wf());
                lemma_freq_mono(self.segments@, term@, i + 1, self.segments@.len() as int);
            }
            n = n + self.segments[i].doc_freq(term);
            i = i + 1;
        }
        n
    }

    /// Every match, segment by segment and in tid order within each: in tid
    /// order throughout if the segments' ranges ascend.
    pub fn search(&self, plan: &Plan) -> (r: Vec<Tid>)
        requires
            self.wf(),
            runnable(plan.view()),
        ensures
            in_turn(r@, self.spec_segments(), plan.view()),
            self.apart() ==> r@.no_duplicates() && forall|t: Tid| #[trigger] r@.contains(t) <==> self.found(plan.view()).contains(t),
            ranges_ascend(self.spec_segments()) ==> is_listing(r@, self.found(plan.view())),
            self.apart() ==> self.matching(plan.view()).subset_of(self.found(plan.view())),
            self.apart() && (self.plain() || !plan.view().inexact()) ==> self.found(plan.view()) == self.matching(plan.view()),
    {
        self.search_vec(plan)
    }

    pub fn search_vec(&self, plan: &Plan) -> (r: Vec<Tid>)
        requires
            self.wf(),
            runnable(plan.view()),
        ensures
            in_turn(r@, self.spec_segments(), plan.view()),
            self.apart() ==> r@.no_duplicates() && forall|t: Tid| #[trigger] r@.contains(t) <==> self.found(plan.view()).contains(t),
            ranges_ascend(self.spec_segments()) ==> is_listing(r@, self.found(plan.view())),
            self.apart() ==> self.matching(plan.view()).subset_of(self.found(plan.view())),
            self.apart() && (self.plain() || !plan.view().inexact()) ==> self.found(plan.view()) == self.matching(plan.view()),
    {
        let mut v: Vec<Tid> = Vec::new();
        let mut i: usize = 0;
        let ghost p = plan.view();
        let ghost segs = self.segments@;
        let ghost mut parts: Seq<Seq<Tid>> = Seq::empty();
        while i < self.segments.len()
            invariant
                self.wf(),
                segs == self.segments@,
                runnable(p),
                p == plan.view(),
                i <= segs.len(),
                parts.len() == i,
                forall|k: int| 0 <= k < i ==> is_listing(#[trigger] parts[k], segs[k].found(p)),
                v@ == joined(parts, i as int),
                self.apart() ==> v@.no_duplicates() && forall|t: Tid| #[trigger] v@.contains(t) <==> found_upto(segs, p, i as int).contains(t),
                ranges_ascend(segs) ==> is_listing(v@, found_upto(segs, p, i as int)),
            decreases segs.len() - i,
        {
            let ghost was = v@;
            assert(self.spec_segments()[i as int].wf());
            self.segments[i].collect(plan, &mut v);
            proof {
                let l = choose|l: Seq<Tid>| is_listing(l, segs[i as int].found(p)) && v@ == was + l;
                if ranges_ascend(segs) {
                    lemma_join(segs, p, i as int, was, l);
                }
                if self.apart() {
                    self.lemma_add(p, i as int, was, l);
                }
                let before = parts;
                parts = before.push(l);
                lemma_joined_push(before, l, i as int);
            }
            i = i + 1;
        }
        proof {
            if ranges_ascend(segs) {
                self.lemma_apart();
            }
            assert(found_upto(segs, p, segs.len() as int) =~= self.found(p));
            if self.apart() {
                self.search_gives_matches(p);
            }
            assert(are_turns(v@, segs, p, parts));
        }
        v
    }

    /// How many matches there are, over all segments.
    pub fn count(&self, plan: &Plan) -> (r: u64)
        requires
            self.wf(),
            runnable(plan.view()),
            match_sum(self.spec_segments(), plan.view(), self.spec_segments().len() as int) <= u64::MAX,
        ensures
            r == match_sum(self.spec_segments(), plan.view(), self.spec_segments().len() as int),
            self.apart() ==> self.found(plan.view()).finite() && r == self.found(plan.view()).len(),
            self.apart() && (self.plain() || !plan.view().inexact()) ==> self.found(plan.view()) == self.matching(plan.view()),
    {
        let mut n: u64 = 0;
        let mut i: usize = 0;
        let ghost p = plan.view();
        let ghost segs = self.segments@;
        while i < self.segments.len()
            invariant
                self.wf(),
                segs == self.segments@,
                runnable(p),
                p == plan.view(),
                i <= segs.len(),
                match_sum(segs, p, segs.len() as int) <= u64::MAX,
                n == match_sum(segs, p, i as int),
            decreases segs.len() - i,
        {
            assert(self.spec_segments()[i as int].wf());
            proof {
                lemma_match_mono(segs, p, i + 1, segs.len() as int);
                segs[i as int].lemma_found_finite(p);
            }
            let k: u64 = self.segments[i].count(plan);
            n = n + k;
            i = i + 1;
        }
        proof {
            assert(found_upto(segs, p, segs.len() as int) =~= self.found(p));
            if self.apart() {
                self.search_gives_matches(p);
                self.lemma_sum_len(p, segs.len() as int);
            }
        }
        n
    }

    /// Tuples counted segment by segment are counted once each.
    proof fn lemma_sum_len(&self, p: PlanView, n: int)
        requires
            self.wf(),
            self.apart(),
            runnable(p),
            0 <= n <= self.segments@.len(),
        ensures
            found_upto(self.segments@, p, n).finite(),
            match_sum(self.segments@, p, n) == found_upto(self.segments@, p, n).len(),
        decreases n,
    {
        let segs = self.segments@;
        if n > 0 {
            self.lemma_sum_len(p, n - 1);
            lemma_upto_step(segs, p, n - 1);
            assert(self.spec_segments()[n - 1].wf());
            segs[n - 1].lemma_found_finite(p);
            let (a, b) = (found_upto(segs, p, n - 1), segs[n - 1].found(p));
            assert(a.disjoint(b)) by {
                assert forall|t: Tid| !(a.contains(t) && b.contains(t)) by {
                    if a.contains(t) && b.contains(t) {
                        let j = choose|j: int| 0 <= j < n - 1 && (#[trigger] segs[j]).found(p).contains(t);
                        self.lemma_one_segment(p, j, n - 1, t);
                    }
                }
            }
            vstd::set_lib::lemma_set_disjoint_lens(a, b);
        } else {
            assert(found_upto(segs, p, 0) =~= Set::<Tid>::empty());
        }
    }

    /// No tuple matches in two segments.
    proof fn lemma_one_segment(&self, p: PlanView, i: int, j: int, t: Tid)
        requires
            self.wf(),
            self.apart(),
            0 <= i < j < self.segments@.len(),
            runnable(p),
            self.segments@[i].found(p).contains(t),
        ensures
            !self.segments@[j].found(p).contains(t),
    {
        let segs = self.spec_segments();
        assert(segs[i].wf() && segs[j].wf());
        let x = lemma_match_term(segs[i], p, t);
        if segs[j].found(p).contains(t) {
            let y = lemma_match_term(segs[j], p, t);
            assert(segs[i].has(x, t) && segs[j].has(y, t));
        }
    }

    /// The next segment's matches are none of those before.
    proof fn lemma_add(&self, p: PlanView, n: int, s: Seq<Tid>, l: Seq<Tid>)
        requires
            self.wf(),
            self.apart(),
            0 <= n < self.segments@.len(),
            runnable(p),
            s.no_duplicates(),
            forall|t: Tid| #[trigger] s.contains(t) <==> found_upto(self.segments@, p, n).contains(t),
            is_listing(l, self.segments@[n].found(p)),
        ensures
            (s + l).no_duplicates(),
            forall|t: Tid| #[trigger] (s + l).contains(t) <==> found_upto(self.segments@, p, n + 1).contains(t),
    {
        let segs = self.segments@;
        let r = s + l;
        lemma_upto_step(segs, p, n);
        assert forall|i: int, j: int| 0 <= i < j < r.len() implies r[i] != r[j] by {
            if j < s.len() {
            } else if i >= s.len() {
                assert(l[i - s.len()].before(l[j - s.len()]));
            } else {
                let (a, b) = (s[i], l[j - s.len()]);
                assert(s.contains(a) && l.contains(b));
                let k = choose|k: int| 0 <= k < n && (#[trigger] segs[k]).found(p).contains(a);
                self.lemma_one_segment(p, k, n, a);
            }
        }
        lemma_contains_sum(segs, p, n, s, l);
    }

    /// A search gives every match of a plan, and without grams, or where the
    /// plan holds no fragment that counts, nothing else.
    pub proof fn search_gives_matches(&self, p: PlanView)
        requires
            self.wf(),
            self.apart(),
            runnable(p),
        ensures
            self.matching(p).subset_of(self.found(p)),
            self.plain() || !p.inexact() ==> self.found(p) == self.matching(p),
    {
        let segs = self.spec_segments();
        let n = segs.len() as int;
        assert forall|t: Tid| self.matching(p).contains(t) implies self.found(p).contains(t) by {
            runnable_needs_terms(p);
            let terms = self.terms_at(t);
            assert(terms != Set::<Seq<char>>::empty());
            assert(exists|x: Seq<char>| terms.contains(x)) by {
                if forall|x: Seq<char>| !terms.contains(x) {
                    assert(terms =~= Set::<Seq<char>>::empty());
                }
            }
            let x = choose|x: Seq<char>| terms.contains(x);
            let i = choose|i: int| 0 <= i < n && (#[trigger] segs[i]).has(x, t);
            self.lemma_only(i, x, t);
            assert(segs[i].wf());
            segs[i].candidates_hold_matches(p, false, t);
            assert(segs[i].found(p).contains(t));
        }
        if self.plain() || !p.inexact() {
            assert forall|t: Tid| self.found(p).contains(t) implies self.matching(p).contains(t) by {
                let i = choose|i: int| 0 <= i < n && (#[trigger] segs[i]).found(p).contains(t);
                assert(segs[i].wf());
                let x = segs[i].yields_need_terms(p, false, t);
                self.lemma_only(i, x, t);
                segs[i].candidates_hold_matches(p, false, t);
            }
            assert(self.found(p) =~= self.matching(p));
        }
    }

    /// Only one segment has a tuple.
    proof fn lemma_only(&self, i: int, x: Seq<char>, t: Tid)
        requires
            self.wf(),
            self.apart(),
            0 <= i < self.segments@.len(),
            self.segments@[i].has(x, t),
        ensures
            self.terms_at(t) == self.segments@[i].terms_at(t),
    {
        let segs = self.spec_segments();
        assert forall|y: Seq<char>| self.terms_at(t).contains(y) <==> segs[i].terms_at(t).contains(y) by {
            if self.terms_at(t).contains(y) {
                let j = choose|j: int| 0 <= j < segs.len() && (#[trigger] segs[j]).has(y, t);
                assert(segs[i].has(x, t) && segs[j].has(y, t));
            }
            if segs[i].terms_at(t).contains(y) {
                assert(self.spec_segments()[i].has(y, t));
            }
        }
        assert(self.terms_at(t) =~= segs[i].terms_at(t));
    }
}

/// Segments over disjoint, ascending block ranges.
pub open spec fn ranges_ascend(s: Seq<Segment>) -> bool {
    forall|i: int, j: int| 0 <= i < j < s.len() ==> (#[trigger] s[i]).spec_meta().end_block <= (#[trigger] s[j]).spec_meta().first_block
}

proof fn lemma_added_push(docs: Seq<DocTerms>, e: DocTerms, tid: Tid)
    ensures
        doc_added(docs.push(e), tid) <==> doc_added(docs, tid) || e.0 == tid,
{
    let more = docs.push(e);
    if doc_added(docs, tid) {
        let i = choose|i: int| 0 <= i < docs.len() && (#[trigger] docs[i]).0 == tid;
        assert(more[i].0 == tid);
    }
    if doc_added(more, tid) {
        let i = choose|i: int| 0 <= i < more.len() && (#[trigger] more[i]).0 == tid;
        if i < docs.len() {
            assert(docs[i].0 == tid);
        }
    }
    assert(more[docs.len() as int] == e);
}

/// The distinct terms of those of the first `n` documents that are in blocks
/// `lo..hi`, summed.
pub open spec fn terms_within(docs: Seq<DocTerms>, lo: int, hi: int, n: int) -> int
    decreases n,
{
    if n <= 0 {
        0
    } else {
        terms_within(docs, lo, hi, n - 1) + (if lo <= docs[n - 1].0.block < hi { docs[n - 1].1.len() as int } else { 0 })
    }
}

/// How many of the first `n` documents are in blocks `lo..hi`.
pub open spec fn docs_within(docs: Seq<(Tid, String)>, lo: int, hi: int, n: int) -> int
    decreases n,
{
    if n <= 0 {
        0
    } else {
        docs_within(docs, lo, hi, n - 1) + (if lo <= docs[n - 1].0.block < hi { 1int } else { 0int })
    }
}

/// The sizes of a segment's terms.
pub open spec fn sized(sizes: Seq<TermSize>, s: Segment) -> bool {
    exists|ts: Seq<Seq<char>>| #[trigger] are_sizes(sizes, ts, s)
}

/// One segment for each range, with the documents there.
pub open spec fn segments_of(segs: Seq<Segment>, docs: Seq<(Tid, String)>, bounds: Seq<(u32, u32)>) -> bool {
    &&& segs.len() == bounds.len()
    &&& forall|k: int| 0 <= k < segs.len() ==> {
        &&& (#[trigger] segs[k]).spec_meta().first_block == bounds[k].0
        &&& segs[k].spec_meta().end_block == bounds[k].1
        &&& segs[k].spec_meta().doc_count == docs_within(docs, bounds[k].0 as int, bounds[k].1 as int, docs.len() as int)
    }
}

/// One past the last block of the documents.
pub open spec fn end_block(docs: Seq<(Tid, String)>) -> int {
    if docs.len() == 0 {
        0
    } else {
        docs.last().0.block + 1
    }
}

/// Where share `i` of `n` equal shares of the blocks starts.
pub open spec fn share(end: int, i: int, n: int) -> u32 {
    (end * i / n) as u32
}

fn share_of(end: u64, i: u64, n: u64) -> (r: u32)
    requires
        end <= u32::MAX,
        i <= n,
        0 < n <= u32::MAX,
    ensures
        r == share(end as int, i as int, n as int),
{
    proof {
        lemma_share(end as int, i as int, n as int);
        assert(end * i <= 0xFFFF_FFFF * 0xFFFF_FFFF) by (nonlinear_arith)
            requires
                0 <= end <= 0xFFFF_FFFF,
                0 <= i <= 0xFFFF_FFFF,
        ;
    }
    (end * i / n) as u32
}

/// The first `k` of `n` equal shares, those without a block left out.
pub open spec fn shares(end: int, k: int, n: int) -> Seq<(u32, u32)>
    decreases k,
{
    if k <= 0 {
        Seq::empty()
    } else {
        let (lo, hi) = (share(end, k - 1, n), share(end, k, n));
        if lo < hi {
            shares(end, k - 1, n).push((lo, hi))
        } else {
            shares(end, k - 1, n)
        }
    }
}

/// Ranges one after the other from block 0 to `end`.
pub open spec fn bounds_ok(b: Seq<(u32, u32)>, end: int) -> bool {
    &&& forall|k: int| 0 <= k < b.len() ==> (#[trigger] b[k]).0 < b[k].1
    &&& forall|k: int| 0 < k < b.len() ==> b[k - 1].1 == (#[trigger] b[k]).0
    &&& b.len() > 0 ==> b[0].0 == 0 && b.last().1 == end
    &&& b.len() == 0 ==> end == 0
}

proof fn lemma_share(end: int, i: int, n: int)
    requires
        0 <= end <= u32::MAX,
        0 <= i <= n,
        0 < n,
    ensures
        share(end, i, n) == end * i / n,
        i == 0 ==> share(end, i, n) == 0,
        0 <= end * i / n <= end,
        i > 0 ==> end * (i - 1) / n <= end * i / n,
{
    assert(0 <= end * i <= end * n) by (nonlinear_arith)
        requires
            0 <= end,
            0 <= i <= n,
    ;
    vstd::arithmetic::div_mod::lemma_div_is_ordered(end * i, end * n, n);
    assert(end * n / n == end) by {
        vstd::arithmetic::div_mod::lemma_div_multiples_vanish(end, n);
        assert(n * end == end * n) by (nonlinear_arith);
    }
    vstd::arithmetic::div_mod::lemma_div_pos_is_pos(end * i, n);
    if i > 0 {
        assert(end * (i - 1) <= end * i) by (nonlinear_arith)
            requires
                0 <= end,
        ;
        vstd::arithmetic::div_mod::lemma_div_is_ordered(end * (i - 1), end * i, n);
    } else {
        assert(end * 0 == 0);
    }
}

proof fn lemma_text_total(docs: Seq<(Tid, String)>, a: int, b: int)
    requires
        0 <= a <= b,
    ensures
        0 <= text_total(docs, a) <= text_total(docs, b),
    decreases b,
{
    if b > 0 {
        lemma_text_total(docs, if a < b { a } else { a - 1 }, b - 1);
    }
}

proof fn lemma_end_block(docs: Seq<(Tid, String)>)
    requires
        buildable(docs),
    ensures
        0 <= end_block(docs) <= u32::MAX,
        end_block(docs) * 512 + 0x1_0000 <= usize::MAX,
{
    if docs.len() > 0 {
        assert(docs[docs.len() - 1].0.valid());
    }
}

/// Every document lies below the end.
proof fn lemma_below_end(docs: Seq<(Tid, String)>, j: int)
    requires
        buildable(docs),
        0 <= j < docs.len(),
    ensures
        docs[j].0.block < end_block(docs),
{
    let dv = docs_view(docs);
    if j < docs.len() - 1 {
        assert(dv[j].0.before(dv[docs.len() - 1].0));
    }
}

proof fn lemma_bounds_order(b: Seq<(u32, u32)>, end: int, i: int, j: int)
    requires
        bounds_ok(b, end),
        0 <= i < j < b.len(),
    ensures
        b[i].1 <= b[j].0,
    decreases j,
{
    assert(b[j - 1].1 == b[j].0);
    if i < j - 1 {
        lemma_bounds_order(b, end, i, j - 1);
        assert(b[j - 1].0 < b[j - 1].1);
    }
}

proof fn lemma_bound_below(b: Seq<(u32, u32)>, end: int, i: int)
    requires
        bounds_ok(b, end),
        0 <= i < b.len(),
    ensures
        b[i].0 < b[i].1 <= end,
{
    assert(b[i].0 < b[i].1);
    if i < b.len() - 1 {
        lemma_bounds_order(b, end, i, b.len() - 1);
        assert(b[b.len() - 1].0 < b[b.len() - 1].1);
    }
}

/// The range that holds a block.
proof fn lemma_bound_of(b: Seq<(u32, u32)>, end: int, x: int) -> (k: int)
    requires
        bounds_ok(b, end),
        0 <= x < end,
    ensures
        0 <= k < b.len(),
        b[k].0 <= x < b[k].1,
{
    lemma_bound_search(b, end, x, b.len() - 1)
}

proof fn lemma_bound_search(b: Seq<(u32, u32)>, end: int, x: int, n: int) -> (k: int)
    requires
        bounds_ok(b, end),
        0 <= n < b.len(),
        0 <= x < b[n].1,
    ensures
        0 <= k < b.len(),
        b[k].0 <= x < b[k].1,
    decreases n,
{
    if x >= b[n].0 {
        n
    } else {
        assert(n > 0);
        assert(b[n - 1].1 == b[n].0);
        lemma_bound_search(b, end, x, n - 1)
    }
}

/// The matches in the first `n` segments.
spec fn found_upto(segs: Seq<Segment>, p: PlanView, n: int) -> Set<Tid> {
    Set::new(|t: Tid| exists|i: int| 0 <= i < n && (#[trigger] segs[i]).found(p).contains(t))
}

proof fn lemma_upto_step(segs: Seq<Segment>, p: PlanView, n: int)
    requires
        0 <= n < segs.len(),
    ensures
        found_upto(segs, p, n + 1) == found_upto(segs, p, n).union(segs[n].found(p)),
{
    assert forall|t: Tid| found_upto(segs, p, n + 1).contains(t) <==> found_upto(segs, p, n).union(segs[n].found(p)).contains(t) by {
        if segs[n].found(p).contains(t) {
            assert(found_upto(segs, p, n + 1).contains(t));
        }
    }
    assert(found_upto(segs, p, n + 1) =~= found_upto(segs, p, n).union(segs[n].found(p)));
}

/// A match has a term.
proof fn lemma_match_term(s: Segment, p: PlanView, t: Tid) -> (x: Seq<char>)
    requires
        s.wf(),
        runnable(p),
        s.found(p).contains(t),
    ensures
        s.has(x, t),
{
    s.yields_need_terms(p, false, t)
}

/// A match lies in the segment's blocks.
proof fn lemma_match_range(s: Segment, p: PlanView, t: Tid)
    requires
        s.wf(),
        runnable(p),
        s.found(p).contains(t),
    ensures
        s.spec_meta().first_block <= t.block < s.spec_meta().end_block,
{
    let x = lemma_match_term(s, p, t);
    s.lemma_in_range(x, t);
}

/// Lists one after the other, the first `n`.
pub open spec fn joined(parts: Seq<Seq<Tid>>, n: int) -> Seq<Tid>
    decreases n,
{
    if n <= 0 {
        Seq::empty()
    } else {
        joined(parts, n - 1) + parts[n - 1]
    }
}

proof fn lemma_joined_push(parts: Seq<Seq<Tid>>, l: Seq<Tid>, n: int)
    requires
        0 <= n <= parts.len(),
    ensures
        joined(parts.push(l), n) == joined(parts, n),
    decreases n,
{
    if n > 0 {
        lemma_joined_push(parts, l, n - 1);
    }
}

/// `parts` are the matches of the segments, and `r` is one after the other.
pub open spec fn are_turns(r: Seq<Tid>, segs: Seq<Segment>, p: PlanView, parts: Seq<Seq<Tid>>) -> bool {
    &&& parts.len() == segs.len()
    &&& forall|k: int| 0 <= k < parts.len() ==> is_listing(#[trigger] parts[k], segs[k].found(p))
    &&& r == joined(parts, parts.len() as int)
}

/// The matches of each segment in turn.
pub open spec fn in_turn(r: Seq<Tid>, segs: Seq<Segment>, p: PlanView) -> bool {
    exists|parts: Seq<Seq<Tid>>| #[trigger] are_turns(r, segs, p, parts)
}

/// How many matches the first `n` segments have.
pub open spec fn match_sum(segs: Seq<Segment>, p: PlanView, n: int) -> int
    decreases n,
{
    if n <= 0 {
        0
    } else {
        match_sum(segs, p, n - 1) + segs[n - 1].found(p).len()
    }
}

proof fn lemma_match_mono(segs: Seq<Segment>, p: PlanView, a: int, b: int)
    requires
        0 <= a <= b,
    ensures
        0 <= match_sum(segs, p, a) <= match_sum(segs, p, b),
    decreases b,
{
    if b > 0 {
        lemma_match_mono(segs, p, if a < b { a } else { a - 1 }, b - 1);
    }
}

/// The next segment's matches come after all before.
proof fn lemma_join(segs: Seq<Segment>, p: PlanView, n: int, s: Seq<Tid>, l: Seq<Tid>)
    requires
        0 <= n < segs.len(),
        forall|i: int| 0 <= i < segs.len() ==> (#[trigger] segs[i]).wf(),
        ranges_ascend(segs),
        runnable(p),
        is_listing(s, found_upto(segs, p, n)),
        is_listing(l, segs[n].found(p)),
    ensures
        is_listing(s + l, found_upto(segs, p, n + 1)),
{
    let r = s + l;
    lemma_upto_step(segs, p, n);
    assert forall|i: int, j: int| 0 <= i < j < r.len() implies (#[trigger] r[i]).before(#[trigger] r[j]) by {
        if j < s.len() {
            assert(s[i].before(s[j]));
        } else if i >= s.len() {
            assert(l[i - s.len()].before(l[j - s.len()]));
        } else {
            let (a, b) = (s[i], l[j - s.len()]);
            assert(s.contains(a) && l.contains(b));
            assert(found_upto(segs, p, n).contains(a));
            let k = choose|k: int| 0 <= k < n && (#[trigger] segs[k]).found(p).contains(a);
            lemma_match_range(segs[k], p, a);
            lemma_match_range(segs[n], p, b);
            assert(segs[k].spec_meta().end_block <= segs[n].spec_meta().first_block);
        }
    }
    lemma_contains_sum(segs, p, n, s, l);
}

/// What is in either list matches in one of the segments.
proof fn lemma_contains_sum(segs: Seq<Segment>, p: PlanView, n: int, s: Seq<Tid>, l: Seq<Tid>)
    requires
        0 <= n < segs.len(),
        forall|t: Tid| #[trigger] s.contains(t) <==> found_upto(segs, p, n).contains(t),
        is_listing(l, segs[n].found(p)),
    ensures
        forall|t: Tid| #[trigger] (s + l).contains(t) <==> found_upto(segs, p, n + 1).contains(t),
{
    let r = s + l;
    lemma_upto_step(segs, p, n);
    assert forall|t: Tid| #[trigger] r.contains(t) <==> found_upto(segs, p, n + 1).contains(t) by {
        if r.contains(t) {
            let i = r.index_of(t);
            if i < s.len() {
                assert(s.contains(s[i]));
            } else {
                assert(l.contains(l[i - s.len()]));
            }
        }
        if found_upto(segs, p, n).contains(t) {
            assert(s.contains(t));
            let i = s.index_of(t);
            assert(r[i] == t);
        }
        if segs[n].found(p).contains(t) {
            assert(l.contains(t));
            let i = l.index_of(t);
            assert(r[s.len() + i] == t);
        }
    }
}

/// The sizes of the first `n` segments, summed.
pub open spec fn sizes_sum(s: Seq<Segment>, n: int) -> int
    decreases n,
{
    if n <= 0 {
        0
    } else {
        sizes_sum(s, n - 1) + s[n - 1].table().len() + s[n - 1].area().len() + s[n - 1].dir().widths.len() * 2
    }
}

/// The documents of the first `n` segments, summed.
pub open spec fn counts_sum(s: Seq<Segment>, n: int) -> int
    decreases n,
{
    if n <= 0 {
        0
    } else {
        counts_sum(s, n - 1) + s[n - 1].spec_meta().doc_count
    }
}

/// How many tuples of a segment have the term.
pub open spec fn freq(s: Segment, t: Seq<char>) -> int {
    if s.values().dom().contains(encode_utf8(t)) {
        term_tids(s.values()[encode_utf8(t)], s.area(), s.dir()).len() as int
    } else {
        0
    }
}

/// How many tuples of the first `n` segments have the term.
pub open spec fn freq_sum(s: Seq<Segment>, t: Seq<char>, n: int) -> int
    decreases n,
{
    if n <= 0 {
        0
    } else {
        freq_sum(s, t, n - 1) + freq(s[n - 1], t)
    }
}

proof fn lemma_sizes_mono(s: Seq<Segment>, a: int, b: int)
    requires
        0 <= a <= b,
    ensures
        0 <= sizes_sum(s, a) <= sizes_sum(s, b),
    decreases b,
{
    if b > 0 {
        lemma_sizes_mono(s, if a < b { a } else { a - 1 }, b - 1);
    }
}

proof fn lemma_counts_mono(s: Seq<Segment>, a: int, b: int)
    requires
        0 <= a <= b,
    ensures
        0 <= counts_sum(s, a) <= counts_sum(s, b),
    decreases b,
{
    if b > 0 {
        lemma_counts_mono(s, if a < b { a } else { a - 1 }, b - 1);
    }
}

proof fn lemma_freq_mono(s: Seq<Segment>, t: Seq<char>, a: int, b: int)
    requires
        0 <= a <= b,
    ensures
        0 <= freq_sum(s, t, a) <= freq_sum(s, t, b),
    decreases b,
{
    if b > 0 {
        lemma_freq_mono(s, t, if a < b { a } else { a - 1 }, b - 1);
    }
}

// ---------------------------------------------------------------------------
// Laws
// ---------------------------------------------------------------------------

/// Searching an index that was built from documents finds exactly the
/// documents that the plan matches.
pub proof fn search_is_naive_evaluation(index: Index, docs: Seq<DocTerms>, p: PlanView, tid: Tid)
    requires
        index.wf(),
        index.is_of(docs),
        docs_ascend(docs),
        runnable(p),
    ensures
        index.matching(p).contains(tid) <==> exists|i: int| 0 <= i < docs.len() && (#[trigger] docs[i]).0 == tid && plan_matches(p, docs[i].1),
{
    let terms = index.terms_at(tid);
    assert forall|i: int| 0 <= i < docs.len() && (#[trigger] docs[i]).0 == tid implies terms =~= docs[i].1 by {
        assert forall|t: Seq<char>| terms.contains(t) <==> docs[i].1.contains(t) by {
            assert(index.has(t, tid) <==> doc_has(docs, t, tid));
            if doc_has(docs, t, tid) {
                let j = choose|j: int| 0 <= j < docs.len() && (#[trigger] docs[j]).0 == tid && docs[j].1.contains(t);
                if i < j {
                    assert(docs[i].0.before(docs[j].0));
                }
                if j < i {
                    assert(docs[j].0.before(docs[i].0));
                }
            }
        }
    }
    if index.matching(p).contains(tid) {
        runnable_needs_terms(p);
        assert(exists|x: Seq<char>| terms.contains(x)) by {
            if forall|x: Seq<char>| !terms.contains(x) {
                assert(terms =~= Set::<Seq<char>>::empty());
            }
        }
        let x = choose|x: Seq<char>| terms.contains(x);
        assert(index.has(x, tid) <==> doc_has(docs, x, tid));
        let i = choose|i: int| 0 <= i < docs.len() && (#[trigger] docs[i]).0 == tid && docs[i].1.contains(x);
        assert(docs[i].0 == tid && plan_matches(p, docs[i].1));
    }
}

/// Every document is in one segment: built over ranges that follow each
/// other from block 0 to past the last document, the segments count as many
/// documents as there are.
pub proof fn segments_share_documents(segs: Seq<Segment>, docs: Seq<(Tid, String)>, bounds: Seq<(u32, u32)>)
    requires
        buildable(docs),
        bounds_ok(bounds, end_block(docs)),
        segments_of(segs, docs, bounds),
    ensures
        counts_sum(segs, segs.len() as int) == docs.len(),
{
    let n = docs.len() as int;
    let end = end_block(docs);
    lemma_counts_within(segs, docs, bounds, segs.len() as int);
    assert forall|j: int| 0 <= j < n implies 0 <= (#[trigger] docs[j]).0.block < end by {
        lemma_below_end(docs, j);
    }
    lemma_all_within(docs, end, n);
}

/// The first `k` ranges together.
proof fn lemma_counts_within(segs: Seq<Segment>, docs: Seq<(Tid, String)>, bounds: Seq<(u32, u32)>, k: int)
    requires
        bounds_ok(bounds, end_block(docs)),
        segments_of(segs, docs, bounds),
        0 <= k <= segs.len(),
    ensures
        counts_sum(segs, k) == docs_within(docs, 0, if k == 0 { 0 } else { bounds[k - 1].1 as int }, docs.len() as int),
    decreases k,
{
    let n = docs.len() as int;
    if k == 0 {
        lemma_within_joins(docs, 0, 0, 0, n);
    } else {
        lemma_counts_within(segs, docs, bounds, k - 1);
        assert(segs[k - 1].spec_meta().doc_count == docs_within(docs, bounds[k - 1].0 as int, bounds[k - 1].1 as int, n));
        assert(bounds[k - 1].0 < bounds[k - 1].1);
        if k > 1 {
            assert(bounds[k - 2].1 == bounds[k - 1].0);
        }
        lemma_within_joins(docs, 0, bounds[k - 1].0 as int, bounds[k - 1].1 as int, n);
    }
}

proof fn lemma_within_joins(docs: Seq<(Tid, String)>, a: int, b: int, c: int, n: int)
    requires
        a <= b <= c,
    ensures
        docs_within(docs, a, c, n) == docs_within(docs, a, b, n) + docs_within(docs, b, c, n),
        docs_within(docs, a, a, n) == 0,
    decreases n,
{
    if n > 0 {
        lemma_within_joins(docs, a, b, c, n - 1);
    }
}

proof fn lemma_all_within(docs: Seq<(Tid, String)>, end: int, n: int)
    requires
        0 <= n <= docs.len(),
        forall|j: int| 0 <= j < n ==> 0 <= (#[trigger] docs[j]).0.block < end,
    ensures
        docs_within(docs, 0, end, n) == n,
    decreases n,
{
    if n > 0 {
        lemma_all_within(docs, end, n - 1);
    }
}

/// A term's count in a segment is the number of tuples that have it.
pub proof fn counts_are_of_tuples(s: Segment, t: Seq<char>)
    ensures
        freq(s, t) == Set::new(|tid: Tid| s.has(t, tid)).len(),
{
    let tids = Set::new(|tid: Tid| s.has(t, tid));
    if s.values().dom().contains(encode_utf8(t)) {
        assert(tids =~= term_tids(s.values()[encode_utf8(t)], s.area(), s.dir()));
    } else {
        assert(tids =~= Set::empty());
    }
}

/// The blocks are shared out evenly: no share is larger than another by more
/// than one block, and together they are all.
pub proof fn shares_are_even(end: int, i: int, n: int)
    requires
        0 <= end <= u32::MAX,
        0 <= i < n,
    ensures
        share(end, 0, n) == 0,
        share(end, n, n) == end,
        end / n <= share(end, i + 1, n) - share(end, i, n) <= end / n + 1,
{
    assert(end * 0 / n == 0);
    assert(end * n / n == end) by (nonlinear_arith)
        requires
            0 < n,
    ;
    let (a, b) = (end * i / n, end * (i + 1) / n);
    assert(end * (i + 1) == end * i + end) by (nonlinear_arith);
    assert(0 <= end * i <= end * (i + 1) <= end * n) by (nonlinear_arith)
        requires
            0 <= end,
            0 <= i < n,
    ;
    let (q, r) = (end / n, end % n);
    let (x, y) = (end * i / n, (end * i) % n);
    assert(end == n * q + r && 0 <= r < n) by (nonlinear_arith)
        requires
            0 < n,
            q == end / n,
            r == end % n,
    ;
    assert(end * i == n * x + y && 0 <= y < n) by (nonlinear_arith)
        requires
            0 < n,
            x == end * i / n,
            y == (end * i) % n,
    ;
    let d = if y + r >= n { 1int } else { 0int };
    assert(n * (x + q + d) == n * x + n * q + n * d) by (nonlinear_arith);
    assert(n * d == if d == 1 { n } else { 0 }) by (nonlinear_arith)
        requires
            d == 0 || d == 1,
    ;
    assert(end * (i + 1) == n * (x + q + d) + (y + r - n * d));
    assert(b == x + q + d) by (nonlinear_arith)
        requires
            b == end * (i + 1) / n,
            end * (i + 1) == n * (x + q + d) + (y + r - n * d),
            0 <= y + r - n * d < n,
            0 < n,
    ;
    assert(0 <= a <= end && 0 <= b <= end) by (nonlinear_arith)
        requires
            a == end * i / n,
            b == end * (i + 1) / n,
            0 <= end * i <= end * (i + 1) <= end * n,
            0 < n,
    ;
}

} // verus!
