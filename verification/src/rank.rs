//! Ranked retrieval for a [`SearchBox`]: matches come out tier by tier
//! (exact, prefix, fragment, typo), each tuple once, so a caller that wants
//! the best k stops as soon as it has them.
//!
//! [`Ranked`] is pull-based and keeps no borrows between calls: every
//! [`next`](Ranked::next) is handed the [`Sources`] (segments with liveness,
//! plus not-yet-indexed records), which must be the same, in the same order,
//! for the life of a scan.
//!
//! * A single-term query without a filter streams its prefix and typo tiers
//!   from the term dictionary a few terms at a time.
//! * Everything else runs the tier's plan over each segment at once.
//! * With a `filter` (other index conditions), every tier is ANDed with it,
//!   and filter matches that match no tier come last ([`NO_TIER`]).

use vstd::prelude::*;
use crate::drive::{alive, is_listing};
use crate::plan::{lemma_plan_parts, lemma_plan_view, plan_accepts, plan_matches, plan_views, some_accepted, Plan, PlanView, SortedTerms};
use crate::search::{holds_at, in_use, plan_is_tier, term_found, term_within, tier_plan, tiers_are_nested, SearchBox, MAX_TIER};
use crate::seen::Seen;
use crate::segment::{lemma_runnable_parts, runnable, Segment};
use crate::text::copy_of;
use crate::tid::Tid;
use crate::tokenize::{sorted_terms, strings_view};

verus! {

/// The tier of filter matches that match no tier of the query.
pub const NO_TIER: u8 = 5;

/// Terms taken from the dictionary per streaming step.
pub const STREAM_TERMS: usize = 32;

/// A document not in any segment yet (a pending-list record).
#[derive(Clone, Debug, PartialEq, Eq)]
pub struct PendingDoc {
    pub tid: Tid,
    /// Sorted, distinct analyzed terms.
    pub terms: Vec<String>,
}

impl PendingDoc {
    /// The terms.
    pub open spec fn term_set(&self) -> Set<Seq<char>> {
        strings_view(self.terms@).to_set()
    }
}

/// What a scan reads: segments in a fixed order with their liveness bitmaps,
/// and pending documents.
pub struct Sources<'a> {
    pub segments: Vec<(&'a Segment, Option<&'a [u64]>)>,
    pub pending: &'a [PendingDoc],
}

impl<'a> Sources<'a> {
    /// The segments are whole and the pending documents' terms sorted.
    pub open spec fn wf(&self) -> bool {
        &&& forall|i: int| 0 <= i < self.segments@.len() ==> (#[trigger] self.segments@[i]).0.wf()
        &&& forall|j: int| 0 <= j < self.pending@.len() ==> sorted_terms(strings_view((#[trigger] self.pending@[j]).terms@))
    }

    /// Segment `i` holds the live tuple `tid` with these terms.
    pub open spec fn indexed(&self, i: int, tid: Tid, terms: Set<Seq<char>>) -> bool {
        &&& 0 <= i < self.segments@.len()
        &&& alive(self.segments@[i].0.dir(), self.segments@[i].1, tid)
        &&& terms == self.segments@[i].0.terms_at(tid)
    }

    /// Pending document `j` is `tid` with these terms.
    pub open spec fn waits(&self, j: int, tid: Tid, terms: Set<Seq<char>>) -> bool {
        &&& 0 <= j < self.pending@.len()
        &&& self.pending@[j].tid == tid
        &&& terms == self.pending@[j].term_set()
    }
}

/// A match.
#[derive(Copy, Clone, Debug, PartialEq, Eq, Structural)]
pub struct Hit {
    pub tid: Tid,
    /// Its tier, or a lower bound when `tier_is_bound`.
    pub tier: u8,
    /// A candidate: the conditions must be checked against the tuple.
    pub recheck: bool,
    /// `tier` is only a lower bound (fragment candidates): recompute it.
    pub tier_is_bound: bool,
}

enum Step {
    /// The current tier hasn't started.
    Start,
    /// Streaming the current tier: the dictionary terms of segment `seg` that
    /// match, from number `from` on.
    Stream { seg: usize, terms: Vec<String>, from: usize },
    /// The current tier is fully buffered.
    Done,
}

/// A ranked scan.
pub struct Ranked {
    query: SearchBox,
    filter: Option<Plan>,
    /// Per pending document, computed once per scan: its tier (`NO_TIER`
    /// if none) and whether it passes the filter.
    pending: Option<Vec<(u8, bool)>>,
    /// Current tier; `NO_TIER` for the filter-only rest; past it, done.
    tier: u8,
    step: Step,
    emitted: Seen,
    buf: Vec<Hit>,
    at: usize,
}

/// What a filter says.
pub open spec fn filter_view(f: Option<Plan>) -> Option<PlanView> {
    match f {
        Some(p) => Some(p.view()),
        None => None,
    }
}

/// Whether terms pass a filter.
pub open spec fn passes(f: Option<PlanView>, terms: Set<Seq<char>>) -> bool {
    match f {
        Some(p) => plan_matches(p, terms),
        None => true,
    }
}

/// Whether a document with these terms comes out at `tier` or before.
pub open spec fn wants(q: SearchBox, f: Option<PlanView>, terms: Set<Seq<char>>, tier: int) -> bool {
    if tier >= NO_TIER {
        f is Some && passes(f, terms)
    } else {
        q.found(terms, tier) && passes(f, terms)
    }
}

/// Whether `tid` comes out at `tier` or before.
pub open spec fn wanted(q: SearchBox, f: Option<PlanView>, src: Sources<'_>, tid: Tid, tier: int) -> bool {
    ||| exists|i: int, terms: Set<Seq<char>>| #[trigger] src.indexed(i, tid, terms) && wants(q, f, terms, tier)
    ||| exists|j: int, terms: Set<Seq<char>>| #[trigger] src.waits(j, tid, terms) && wants(q, f, terms, tier)
}

/// The plan that a tier runs over each segment.
pub open spec fn tier_run(q: SearchBox, f: Option<PlanView>, tier: int) -> PlanView {
    match f {
        Some(p) => if tier >= NO_TIER {
            p
        } else {
            PlanView::And(seq![q.plan_at(tier), p])
        },
        None => own_plan(q, tier),
    }
}

/// The plan of a tier without a filter: a single term needs only the tier's
/// own alternative, since lower tiers are already out.
pub open spec fn own_plan(q: SearchBox, tier: int) -> PlanView {
    if q.words().len() == 1 {
        tier_plan(q.words()[0], tier)
    } else {
        q.plan_at(tier)
    }
}

/// Whether a tier streams from the dictionary.
pub open spec fn streamed(q: SearchBox, f: Option<PlanView>, tier: int) -> bool {
    q.words().len() == 1 && f is None && (tier == 1 || tier == 3 || tier == 4)
}

/// How a hit from a segment is flagged.
pub open spec fn segment_flags(q: SearchBox, f: Option<PlanView>, h: Hit) -> bool {
    if streamed(q, f, h.tier as int) {
        !h.recheck && !h.tier_is_bound
    } else {
        &&& h.recheck == tier_run(q, f, h.tier as int).inexact()
        &&& h.tier_is_bound == (h.tier < NO_TIER && (if f is Some { q.plan_at(h.tier as int).inexact() } else { h.recheck }))
    }
}

/// How a hit from the pending documents is flagged.
pub open spec fn pending_flags(f: Option<PlanView>, h: Hit) -> bool {
    &&& h.recheck == (f is Some && f->0.inexact())
    &&& !h.tier_is_bound
}

/// Whether a hit from segment `i` belongs there: it comes out at its tier, or,
/// flagged for a recheck in a segment with grams, is a candidate for that.
pub open spec fn belongs(q: SearchBox, f: Option<PlanView>, src: Sources<'_>, i: int, terms: Set<Seq<char>>, h: Hit) -> bool {
    if src.segments@[i].0.spec_meta().grams && h.recheck {
        src.segments@[i].0.yields(tier_run(q, f, h.tier as int), false, h.tid)
    } else {
        wants(q, f, terms, h.tier as int)
    }
}

/// A hit is a tuple of the sources that comes out at its tier and not before,
/// or may, flagged as its source demands.
pub open spec fn sound(q: SearchBox, f: Option<PlanView>, src: Sources<'_>, h: Hit) -> bool {
    &&& h.tier <= NO_TIER
    &&& forall|t: int| 0 <= t < h.tier ==> !#[trigger] wanted(q, f, src, h.tid, t)
    &&& {
        ||| exists|i: int, terms: Set<Seq<char>>|
            #[trigger] src.indexed(i, h.tid, terms) && belongs(q, f, src, i, terms, h) && segment_flags(q, f, h)
        ||| exists|j: int, terms: Set<Seq<char>>|
            #[trigger] src.waits(j, h.tid, terms) && wants(q, f, terms, h.tier as int) && pending_flags(f, h)
    }
}

/// Everything that comes out at `tier` or before is among `tids`.
pub open spec fn complete(q: SearchBox, f: Option<PlanView>, src: Sources<'_>, tids: Set<Tid>, tier: int) -> bool {
    forall|tid: Tid, t: int| 0 <= t <= tier && #[trigger] wanted(q, f, src, tid, t) ==> tids.contains(tid)
}

impl Ranked {
    pub closed spec fn box_of(&self) -> SearchBox {
        self.query
    }

    pub closed spec fn filter_of(&self) -> Option<PlanView> {
        filter_view(self.filter)
    }

    /// The tier that the scan is at.
    pub closed spec fn tier_now(&self) -> int {
        self.tier as int
    }

    /// The tuples handed out so far.
    pub closed spec fn given(&self) -> Set<Tid> {
        Set::new(|t: Tid| self.emitted.tids().contains(t) && !self.buffers(t))
    }

    spec fn buffers(&self, t: Tid) -> bool {
        exists|i: int| self.at <= i < self.buf@.len() && (#[trigger] self.buf@[i]).tid == t
    }

    /// The buffered hits are sound, of the current tier, and no tuple twice.
    spec fn buffer_ok(&self, src: Sources<'_>) -> bool {
        &&& self.at <= self.buf@.len()
        &&& forall|i: int| self.at <= i < self.buf@.len() ==> {
            &&& self.emitted.tids().contains((#[trigger] self.buf@[i]).tid)
            &&& self.buf@[i].tier == self.tier
            &&& sound(self.query, filter_view(self.filter), src, self.buf@[i])
        }
        &&& forall|i: int, j: int| self.at <= i < j < self.buf@.len() ==> (#[trigger] self.buf@[i]).tid != (#[trigger] self.buf@[j]).tid
    }

    /// What was computed of the pending documents is right.
    spec fn pending_ok(&self, src: Sources<'_>) -> bool {
        self.pending matches Some(info) ==> infos_ok(self.query, filter_view(self.filter), src, info@)
    }

    /// All but the streaming state.
    spec fn base(&self, src: Sources<'_>) -> bool {
        &&& src.wf()
        &&& self.tier <= NO_TIER + 1
        &&& self.filter matches Some(p) ==> runnable(p.view())
        &&& self.buffer_ok(src)
        &&& self.pending_ok(src)
        &&& complete(self.query, filter_view(self.filter), src, self.emitted.tids(), self.tier - 1)
    }

    /// The scan over these sources is in order.
    pub closed spec fn wf(&self, src: Sources<'_>) -> bool {
        &&& self.base(src)
        &&& match self.step {
            Step::Start => true,
            Step::Done => self.tier <= NO_TIER && complete(self.query, filter_view(self.filter), src, self.emitted.tids(), self.tier as int),
            Step::Stream { seg, terms, from } => {
                &&& streamed(self.query, filter_view(self.filter), self.tier as int)
                &&& in_use(self.query.words()[0], self.tier as int, self.query.typos())
                &&& stream_ok(self.query, src, self.emitted.tids(), self.tier as int, seg as int, strings_view(terms@), from as int)
            },
        }
    }

    pub fn new(query: SearchBox, filter: Option<Plan>) -> (r: Ranked)
        requires
            filter matches Some(p) ==> runnable(p.view()),
        ensures
            r.box_of() == query,
            r.filter_of() == filter_view(filter),
            r.tier_now() == 0,
            r.given() == Set::<Tid>::empty(),
            forall|src: Sources<'_>| src.wf() ==> #[trigger] r.wf(src),
    {
        let r: Ranked = Ranked {
            query,
            filter,
            pending: None,
            tier: 0,
            step: Step::Start,
            emitted: Seen::new(),
            buf: Vec::new(),
            at: 0,
        };
        proof {
            assert(r.given() =~= Set::<Tid>::empty());
        }
        r
    }

    /// The next best match: a tuple not handed out before, at its tier, once
    /// every tuple of a better tier is out; `None` when all are out.
    pub fn next(&mut self, src: &Sources<'_>) -> (r: Option<Hit>)
        requires
            old(self).wf(*src),
        ensures
            final(self).wf(*src),
            final(self).box_of() == old(self).box_of(),
            final(self).filter_of() == old(self).filter_of(),
            final(self).tier_now() >= old(self).tier_now(),
            match r {
                Some(h) => {
                    &&& sound(old(self).box_of(), old(self).filter_of(), *src, h)
                    &&& !old(self).given().contains(h.tid)
                    &&& final(self).given() == old(self).given().insert(h.tid)
                    &&& h.tier == final(self).tier_now()
                    &&& forall|tid: Tid, t: int|
                        0 <= t < h.tier && #[trigger] wanted(old(self).box_of(), old(self).filter_of(), *src, tid, t) ==> old(self).given().contains(
                            tid,
                        )
                },
                None => {
                    &&& final(self).given() == old(self).given()
                    &&& forall|tid: Tid, t: int|
                        0 <= t <= NO_TIER && #[trigger] wanted(old(self).box_of(), old(self).filter_of(), *src, tid, t) ==> old(self).given().contains(
                            tid,
                        )
                },
            },
    {
        let ghost before = *self;
        loop
            invariant
                self.wf(*src),
                self.query == before.query,
                self.filter == before.filter,
                self.tier >= before.tier,
                before == *old(self),
                self.given() == before.given(),
            decreases 7 - self.tier, stage(self.step), streams_left(self.step, *src), terms_left(self.step), self.buf@.len() - self.at,
        {
            if self.at < self.buf.len() {
                let h: Hit = self.buf[self.at];
                let ghost was = *self;
                self.at = self.at + 1;
                proof {
                    lemma_popped(was, *self, *src);
                }
                return Some(h);
            }
            proof {
                assert forall|t: Tid| self.emitted.tids().contains(t) implies self.given().contains(t) by {
                }
            }
            if self.tier > NO_TIER {
                return None;
            }
            self.advance(src);
        }
    }

    /// Buffer more, or move to the next tier.
    fn advance(&mut self, src: &Sources<'_>)
        requires
            old(self).wf(*src),
            old(self).at == old(self).buf@.len(),
            old(self).tier <= NO_TIER,
        ensures
            final(self).wf(*src),
            final(self).query == old(self).query,
            final(self).filter == old(self).filter,
            final(self).tier >= old(self).tier,
            final(self).given() == old(self).given(),
            final(self).tier > old(self).tier || (final(self).tier == old(self).tier && (stage(final(self).step) < stage(old(self).step) || (stage(
                final(self).step,
            ) == stage(old(self).step) && (streams_left(final(self).step, *src) < streams_left(old(self).step, *src) || (streams_left(
                final(self).step,
                *src,
            ) == streams_left(old(self).step, *src) && terms_left(final(self).step) < terms_left(old(self).step)))))),
            stage(final(self).step) >= 0,
            streams_left(final(self).step, *src) >= 0,
            terms_left(final(self).step) >= 0,
    {
        let mut step: Step = Step::Done;
        std::mem::swap(&mut step, &mut self.step);
        match step {
            Step::Done => {
                proof {
                    assert forall|t: Tid| self.emitted.tids().contains(t) implies old(self).given().contains(t) by {
                    }
                }
                self.tier = self.tier + 1;
                self.step = Step::Start;
                proof {
                    lemma_same_given(*old(self), *self);
                }
            },
            Step::Start => self.start_tier(src),
            Step::Stream { seg, terms, from } => self.stream(src, seg, terms, from),
        }
    }

    /// Whether the current tier streams from the dictionary.
    fn streams(&self) -> (r: bool)
        ensures
            r == streamed(self.query, filter_view(self.filter), self.tier as int),
    {
        let one: bool = self.query.terms().len() == 1;
        proof {
            assert(self.query.words().len() == 1 <==> one);
        }
        one && self.filter.is_none() && (self.tier == 1 || self.tier == 3 || self.tier == 4)
    }

    fn start_tier(&mut self, src: &Sources<'_>)
        requires
            old(self).base(*src),
            old(self).at == old(self).buf@.len(),
            old(self).tier <= NO_TIER,
            old(self).step is Done,
        ensures
            final(self).wf(*src),
            final(self).query == old(self).query,
            final(self).filter == old(self).filter,
            final(self).tier == old(self).tier,
            final(self).given() == old(self).given(),
            stage(final(self).step) < 2,
            stage(final(self).step) >= 0,
            streams_left(final(self).step, *src) >= 0,
            terms_left(final(self).step) >= 0,
    {
        let ghost q = self.query;
        let ghost f = filter_view(self.filter);
        let tier: u8 = self.tier;
        if tier == NO_TIER {
            let only: Option<Plan> = match &self.filter {
                Some(p) => Some(p.copy()),
                None => None,
            };
            if let Some(p) = only {
                let recheck: bool = p.needs_recheck();
                proof {
                    assert(p.view() == tier_run(q, f, NO_TIER as int));
                }
                self.collect(src, &p, recheck, false);
            } else {
                proof {
                    lemma_no_filter(q, f, *src, self.emitted.tids());
                }
            }
            return;
        }
        if !self.query.has_tier(tier) {
            proof {
                lemma_idle_tier(q, f, *src, self.emitted.tids(), tier as int);
            }
            return;
        }
        if self.streams() {
            proof {
                assert(q.words().len() == 1);
                assert(in_use(q.words()[0], tier as int, q.typos()));
            }
            let terms: Vec<String> = self.accepted(src, 0);
            self.step = Step::Stream { seg: 0, terms, from: 0 };
            proof {
                lemma_same_given(*old(self), *self);
            }
            return;
        }
        let own: Plan = self.tier_alone();
        let plan_bound: bool = own.needs_recheck();
        let plan: Plan = match &self.filter {
            Some(p) => {
                let mut both: Vec<Plan> = Vec::new();
                let c: Plan = p.copy();
                both.push(own);
                both.push(c);
                let r: Plan = Plan::And(both);
                proof {
                    lemma_plan_view(r);
                    assert(plan_views(both@) =~= seq![q.plan_at(tier as int), p.view()]);
                    lemma_runnable_parts(plan_views(both@));
                    assert forall|k: int| 0 <= k < plan_views(both@).len() implies runnable(#[trigger] plan_views(both@)[k]) by {
                    }
                }
                r
            },
            None => own,
        };
        let recheck: bool = plan.needs_recheck();
        proof {
            lemma_tier_run(q, f, tier as int);
        }
        self.collect(src, &plan, recheck, plan_bound);
    }

    /// The plan of the current tier, before the filter.
    fn tier_alone(&self) -> (r: Plan)
        requires
            self.tier < NO_TIER,
            self.query.words().len() == 1 && self.filter is None ==> self.tier == 0 || self.tier == 2,
        ensures
            r.view() == if self.filter is Some { self.query.plan_at(self.tier as int) } else { own_plan(self.query, self.tier as int) },
            runnable(r.view()),
    {
        let terms: &Vec<String> = self.query.terms();
        proof {
            assert(self.query.words().len() == terms@.len());
        }
        if terms.len() == 1 && self.filter.is_none() {
            proof {
                assert(self.query.words()[0] == terms@[0]@);
            }
            if self.tier == 0 {
                Plan::Term(copy_of(terms[0].as_str()))
            } else {
                Plan::Fragment(copy_of(terms[0].as_str()))
            }
        } else {
            self.query.plan(self.tier)
        }
    }

    /// Buffer a hit unless its tuple is out.
    fn offer(&mut self, h: Hit, src: &Sources<'_>)
        requires
            old(self).base(*src),
            h.tier == old(self).tier,
            !old(self).emitted.tids().contains(h.tid) ==> sound(old(self).query, filter_view(old(self).filter), *src, h),
        ensures
            final(self).base(*src),
            final(self).query == old(self).query,
            final(self).filter == old(self).filter,
            final(self).tier == old(self).tier,
            final(self).step == old(self).step,
            final(self).pending == old(self).pending,
            final(self).emitted.tids() == old(self).emitted.tids().insert(h.tid),
            final(self).given() == old(self).given(),
    {
        let ghost before = *self;
        if self.emitted.insert(h.tid) {
            self.buf.push(h);
            proof {
                assert forall|t: Tid| self.given().contains(t) <==> before.given().contains(t) by {
                    lemma_pushed(before, *self, h, t);
                }
                assert(self.given() =~= before.given());
                lemma_pushed_ok(before, *self, h, *src);
            }
        } else {
            proof {
                assert(self.emitted.tids() =~= before.emitted.tids());
                lemma_same_given(before, *self);
            }
        }
    }

    /// Buffer every unseen match of the tier's `plan`.
    fn collect(&mut self, src: &Sources<'_>, plan: &Plan, recheck: bool, bound: bool)
        requires
            old(self).base(*src),
            old(self).tier <= NO_TIER,
            old(self).step is Done,
            runnable(plan.view()),
            plan.view() == tier_run(old(self).query, filter_view(old(self).filter), old(self).tier as int),
            !streamed(old(self).query, filter_view(old(self).filter), old(self).tier as int),
            old(self).tier == NO_TIER ==> old(self).filter is Some,
            old(self).filter is None && old(self).query.words().len() == 1 ==> in_use(old(self).query.words()[0], old(self).tier as int, old(self).query.typos()),
            recheck == plan.view().inexact(),
            bound == (old(self).tier < NO_TIER && (if old(self).filter is Some { old(self).query.plan_at(old(self).tier as int).inexact() } else { recheck })),
        ensures
            final(self).wf(*src),
            final(self).query == old(self).query,
            final(self).filter == old(self).filter,
            final(self).tier == old(self).tier,
            final(self).given() == old(self).given(),
            final(self).step is Done,
    {
        let ghost q = self.query;
        let ghost f = filter_view(self.filter);
        let ghost before = *self;
        let tier: u8 = self.tier;
        let ghost p = plan.view();
        proof {
            lemma_run_covers(q, f, tier as int);
        }
        let mut i: usize = 0;
        while i < src.segments.len()
            invariant
                i <= src.segments@.len(),
                self.base(*src),
                self.query == q,
                q == before.query,
                self.filter == before.filter,
                f == filter_view(self.filter),
                self.tier == tier == before.tier,
                tier <= NO_TIER,
                self.step is Done,
                self.given() == before.given(),
                p == plan.view(),
                runnable(p),
                p == tier_run(q, f, tier as int),
                run_covers(q, f, tier as int),
                !streamed(q, f, tier as int),
                recheck == p.inexact(),
                bound == (tier < NO_TIER && (if f is Some { q.plan_at(tier as int).inexact() } else { recheck })),
                forall|k: int, tid: Tid, terms: Set<Seq<char>>|
                    0 <= k < i && #[trigger] src.indexed(k, tid, terms) && plan_matches(p, terms) ==> self.emitted.tids().contains(tid),
            decreases src.segments@.len() - i,
        {
            let seg: &Segment = src.segments[i].0;
            let live: Option<&[u64]> = src.segments[i].1;
            proof {
                assert(src.segments@[i as int].0.wf());
            }
            let tids: Vec<Tid> = seg.search_live(plan, live);
            let ghost done = self.emitted.tids();
            let mut k: usize = 0;
            while k < tids.len()
                invariant
                    i < src.segments@.len(),
                    k <= tids@.len(),
                    *seg == *src.segments@[i as int].0,
                    live == src.segments@[i as int].1,
                    is_listing(tids@, seg.live_found(p, live)),
                    seg.wf(),
                    self.base(*src),
                    self.query == q,
                    q == before.query,
                    self.filter == before.filter,
                    f == filter_view(self.filter),
                    self.tier == tier == before.tier,
                    tier <= NO_TIER,
                    self.step is Done,
                    self.given() == before.given(),
                    p == tier_run(q, f, tier as int),
                    run_covers(q, f, tier as int),
                    !streamed(q, f, tier as int),
                    recheck == p.inexact(),
                    bound == (tier < NO_TIER && (if f is Some { q.plan_at(tier as int).inexact() } else { recheck })),
                    done.subset_of(self.emitted.tids()),
                    forall|m: int| 0 <= m < k ==> self.emitted.tids().contains(#[trigger] tids@[m]),
                decreases tids@.len() - k,
            {
                let tid: Tid = tids[k];
                let h: Hit = Hit { tid, tier, recheck, tier_is_bound: bound };
                proof {
                    assert(tids@.contains(tid));
                    assert(seg.live_found(p, live).contains(tid));
                    let terms = seg.terms_at(tid);
                    seg.candidates_hold_matches(p, false, tid);
                    assert(src.indexed(i as int, h.tid, terms) && belongs(q, f, *src, i as int, terms, h) && segment_flags(q, f, h));
                    if !self.emitted.tids().contains(tid) {
                        assert forall|t: int| 0 <= t < tier implies !#[trigger] wanted(q, f, *src, tid, t) by {
                        }
                        assert(sound(q, f, *src, h));
                    }
                }
                self.offer(h, src);
                k = k + 1;
            }
            proof {
                assert forall|x: int, tid: Tid, terms: Set<Seq<char>>|
                    0 <= x < i + 1 && #[trigger] src.indexed(x, tid, terms) && plan_matches(p, terms) implies self.emitted.tids().contains(tid) by {
                    if x == i {
                        seg.candidates_hold_matches(p, false, tid);
                        assert(seg.live_found(p, live).contains(tid));
                        assert(tids@.contains(tid));
                        let m = tids@.index_of(tid);
                        assert(self.emitted.tids().contains(tids@[m]));
                    } else {
                        assert(done.contains(tid));
                    }
                }
            }
            i = i + 1;
        }
        let ghost segs_done = self.emitted.tids();
        self.pending_hits(src);
        proof {
            assert forall|tid: Tid, t: int| 0 <= t <= tier && #[trigger] wanted(q, f, *src, tid, t) implies self.emitted.tids().contains(tid) by {
                if t == tier {
                    if exists|x: int, terms: Set<Seq<char>>| #[trigger] src.indexed(x, tid, terms) && wants(q, f, terms, t) {
                        let (x, terms) = choose|x: int, terms: Set<Seq<char>>| #[trigger] src.indexed(x, tid, terms) && wants(q, f, terms, t);
                        if plan_matches(p, terms) {
                            assert(segs_done.contains(tid));
                        } else {
                            assert(wants(q, f, terms, tier - 1));
                            assert(wanted(q, f, *src, tid, tier - 1));
                        }
                    }
                }
            }
        }
    }

    /// Buffer the pending documents of the current tier.
    fn pending_hits(&mut self, src: &Sources<'_>)
        requires
            old(self).base(*src),
            old(self).tier <= NO_TIER,
            old(self).tier == NO_TIER ==> old(self).filter is Some,
        ensures
            final(self).base(*src),
            final(self).query == old(self).query,
            final(self).filter == old(self).filter,
            final(self).tier == old(self).tier,
            final(self).step == old(self).step,
            final(self).given() == old(self).given(),
            old(self).emitted.tids().subset_of(final(self).emitted.tids()),
            forall|j: int, tid: Tid, terms: Set<Seq<char>>|
                #[trigger] src.waits(j, tid, terms) && wants(old(self).query, filter_view(old(self).filter), terms, old(self).tier as int)
                    ==> final(self).emitted.tids().contains(tid),
    {
        let ghost q = self.query;
        let ghost f = filter_view(self.filter);
        let ghost start = *self;
        // A filter with phrases or proximity only narrows pending documents
        // down to candidates, like segments.
        let recheck: bool = match &self.filter {
            Some(p) => p.needs_recheck(),
            None => false,
        };
        if self.pending.is_none() {
            let info: Vec<(u8, bool)> = self.pending_info(src);
            self.pending = Some(info);
            proof {
                lemma_same_given(start, *self);
            }
        }
        let ghost before = *self;
        let tier: u8 = self.tier;
        let mut j: usize = 0;
        while j < src.pending.len()
            invariant
                j <= src.pending@.len(),
                self.base(*src),
                self.query == q,
                f == filter_view(self.filter),
                self.filter == before.filter,
                self.tier == tier == before.tier,
                tier <= NO_TIER,
                tier == NO_TIER ==> f is Some,
                self.step == before.step,
                self.pending is Some,
                self.given() == before.given(),
                recheck == (f is Some && f->0.inexact()),
                start.emitted.tids().subset_of(self.emitted.tids()),
                forall|k: int| 0 <= k < j && wants(q, f, (#[trigger] src.pending@[k]).term_set(), tier as int) ==> self.emitted.tids().contains(
                    src.pending@[k].tid,
                ),
            decreases src.pending@.len() - j,
        {
            let ghost done = self.emitted.tids();
            let (t, ok): (u8, bool) = match &self.pending {
                Some(info) => (info[j].0, info[j].1),
                None => vstd::pervasive::unreached(),
            };
            let tid: Tid = src.pending[j].tid;
            proof {
                let info = self.pending->0@;
                assert(info_ok(q, f, src.pending@[j as int].term_set(), info[j as int]));
            }
            if ok && t <= tier {
                let h: Hit = Hit { tid, tier, recheck, tier_is_bound: false };
                proof {
                    let terms = src.pending@[j as int].term_set();
                    assert(src.waits(j as int, h.tid, terms) && wants(q, f, terms, h.tier as int) && pending_flags(f, h));
                    if !self.emitted.tids().contains(tid) {
                        assert forall|t: int| 0 <= t < tier implies !#[trigger] wanted(q, f, *src, tid, t) by {
                        }
                        assert(sound(q, f, *src, h));
                    }
                }
                self.offer(h, src);
            }
            proof {
                assert forall|k: int| 0 <= k < j + 1 && wants(q, f, (#[trigger] src.pending@[k]).term_set(), tier as int) implies self.emitted.tids().contains(
                    src.pending@[k].tid,
                ) by {
                    if k < j {
                        assert(done.contains(src.pending@[k].tid));
                    }
                }
            }
            j = j + 1;
        }
        proof {
            assert forall|x: int, tid: Tid, terms: Set<Seq<char>>| #[trigger] src.waits(x, tid, terms) && wants(q, f, terms, tier as int)
                implies self.emitted.tids().contains(tid) by {
                assert(wants(q, f, src.pending@[x].term_set(), tier as int));
            }
        }
    }

    /// Each pending document's tier and whether it passes the filter.
    fn pending_info(&self, src: &Sources<'_>) -> (r: Vec<(u8, bool)>)
        requires
            src.wf(),
        ensures
            infos_ok(self.query, filter_view(self.filter), *src, r@),
    {
        let ghost q = self.query;
        let ghost f = filter_view(self.filter);
        let mut out: Vec<(u8, bool)> = Vec::new();
        let mut j: usize = 0;
        while j < src.pending.len()
            invariant
                src.wf(),
                q == self.query,
                f == filter_view(self.filter),
                j <= src.pending@.len(),
                out@.len() == j,
                forall|k: int| 0 <= k < j ==> info_ok(q, f, (#[trigger] src.pending@[k]).term_set(), out@[k]),
            decreases src.pending@.len() - j,
        {
            let d: &PendingDoc = &src.pending[j];
            proof {
                assert(sorted_terms(strings_view(src.pending@[j as int].terms@)));
            }
            let found: Option<u8> = self.query.tier_of_terms(d.terms.as_slice());
            let t: u8 = match found {
                Some(t) => t,
                None => NO_TIER,
            };
            let ok: bool = match &self.filter {
                Some(p) => p.matches(&SortedTerms(d.terms.as_slice())),
                None => true,
            };
            proof {
                let terms = d.term_set();
                assert forall|k: int| 0 <= k <= MAX_TIER implies (#[trigger] q.found(terms, k) <==> t <= k) by {
                    if let Some(b) = found {
                        if b <= k {
                            tiers_are_nested(q, terms, b as int, k);
                        }
                    }
                }
            }
            out.push((t, ok));
            j = j + 1;
        }
        out
    }

    /// The dictionary terms of segment `i` that match at the current tier.
    fn accepted(&self, src: &Sources<'_>, i: usize) -> (r: Vec<String>)
        requires
            src.wf(),
            self.query.words().len() == 1,
            self.tier == 1 || self.tier == 3 || self.tier == 4,
        ensures
            i < src.segments@.len() ==> accepts_of(self.query, *src, self.tier as int, i as int, strings_view(r@)),
    {
        if i >= src.segments.len() {
            return Vec::new();
        }
        let seg: &Segment = src.segments[i].0;
        proof {
            assert(src.segments@[i as int].0.wf());
        }
        let term: String = copy_of(self.query.terms()[0].as_str());
        proof {
            assert(term@ == self.query.words()[0]);
        }
        let plan: Plan = match self.tier {
            1 => Plan::Prefix(term),
            3 => Plan::Fuzzy(term, 1),
            _ => Plan::Fuzzy(term, 2),
        };
        let ghost q = self.query.words()[0];
        let ghost tier = self.tier as int;
        proof {
            assert(plan.view() == tier_plan(q, tier));
            assert forall|d: Seq<char>| #[trigger] plan_accepts(plan.view(), d) == holds_at(q, d, tier) by {
            }
        }
        let out: Vec<String> = seg.accepted_terms(&plan);
        proof {
            assert forall|d: Seq<char>| #[trigger] seg.values().dom().contains(vstd::utf8::encode_utf8(d)) && holds_at(q, d, tier) implies strings_view(out@).contains(d) by {
                assert(plan_accepts(plan.view(), d));
            }
            assert forall|m: int| 0 <= m < strings_view(out@).len() implies holds_at(q, #[trigger] strings_view(out@)[m], tier) by {
                assert(strings_view(out@)[m] == out@[m]@);
            }
        }
        out
    }

    /// Stream the current tier on: the next few terms of a segment, the next
    /// segment, or the pending documents.
    fn stream(&mut self, src: &Sources<'_>, seg: usize, terms: Vec<String>, from: usize)
        requires
            old(self).base(*src),
            old(self).at == old(self).buf@.len(),
            old(self).step is Done,
            streamed(old(self).query, filter_view(old(self).filter), old(self).tier as int),
            in_use(old(self).query.words()[0], old(self).tier as int, old(self).query.typos()),
            stream_ok(
                old(self).query,
                *src,
                old(self).emitted.tids(),
                old(self).tier as int,
                seg as int,
                strings_view(terms@),
                from as int,
            ),
        ensures
            final(self).wf(*src),
            final(self).query == old(self).query,
            final(self).filter == old(self).filter,
            final(self).tier == old(self).tier,
            final(self).given() == old(self).given(),
            stage(final(self).step) == 0 || (final(self).step is Stream && (streams_left(final(self).step, *src) < src.segments@.len() + 1 - seg || (
            streams_left(final(self).step, *src) == src.segments@.len() + 1 - seg && terms_left(final(self).step) < terms@.len() + 1 - from))),
            streams_left(final(self).step, *src) >= 0,
            terms_left(final(self).step) >= 0,
    {
        let ghost q = self.query;
        let ghost f = filter_view(self.filter);
        let ghost before = *self;
        let tier: u8 = self.tier;
        let n: usize = src.segments.len();
        if seg >= n {
            self.pending_hits(src);
            proof {
                lemma_stream_done(q, *src, before.emitted.tids(), self.emitted.tids(), tier as int, seg as int, strings_view(terms@), from as int);
            }
            return;
        }
        if from >= terms.len() {
            let next: Vec<String> = self.accepted(src, seg + 1);
            proof {
                lemma_stream_segment(q, *src, self.emitted.tids(), tier as int, seg as int, strings_view(terms@), from as int);
            }
            self.step = Step::Stream { seg: seg + 1, terms: next, from: 0 };
            proof {
                lemma_same_given(before, *self);
            }
            return;
        }
        let end: usize = if terms.len() - from > STREAM_TERMS {
            from + STREAM_TERMS
        } else {
            terms.len()
        };
        let ghost ts = strings_view(terms@);
        let segment: &Segment = src.segments[seg].0;
        let live: Option<&[u64]> = src.segments[seg].1;
        let mut k: usize = from;
        proof {
            assert(src.segments@[seg as int].0.wf());
        }
        while k < end
            invariant
                seg < src.segments@.len(),
                from <= k <= end <= terms@.len(),
                ts == strings_view(terms@),
                *segment == *src.segments@[seg as int].0,
                live == src.segments@[seg as int].1,
                segment.wf(),
                self.base(*src),
                self.query == q,
                q == before.query,
                self.filter == before.filter,
                f == filter_view(self.filter),
                self.tier == tier == before.tier,
                tier < NO_TIER,
                streamed(q, f, tier as int),
                in_use(q.words()[0], tier as int, q.typos()),
                self.step is Done,
                self.given() == before.given(),
                before.emitted.tids().subset_of(self.emitted.tids()),
                stream_ok(q, *src, self.emitted.tids(), tier as int, seg as int, ts, k as int),
            decreases end - k,
        {
            let term: Plan = Plan::Term(copy_of(terms[k].as_str()));
            let ghost d = ts[k as int];
            proof {
                assert(d == terms@[k as int]@);
                assert(term.view() == PlanView::Term(d));
            }
            let tids: Vec<Tid> = segment.search_live(&term, live);
            let ghost done = self.emitted.tids();
            let mut m: usize = 0;
            while m < tids.len()
                invariant
                    seg < src.segments@.len(),
                    k < ts.len(),
                    m <= tids@.len(),
                    d == ts[k as int],
                    *segment == *src.segments@[seg as int].0,
                    live == src.segments@[seg as int].1,
                    is_listing(tids@, segment.live_found(PlanView::Term(d), live)),
                    segment.wf(),
                    self.base(*src),
                    self.query == q,
                    q == before.query,
                    self.filter == before.filter,
                    f == filter_view(self.filter),
                    self.tier == tier == before.tier,
                    tier < NO_TIER,
                    streamed(q, f, tier as int),
                    in_use(q.words()[0], tier as int, q.typos()),
                    holds_at(q.words()[0], d, tier as int),
                    self.step is Done,
                    self.given() == before.given(),
                    before.emitted.tids().subset_of(done),
                    done.subset_of(self.emitted.tids()),
                    forall|x: int| 0 <= x < m ==> self.emitted.tids().contains(#[trigger] tids@[x]),
                decreases tids@.len() - m,
            {
                let tid: Tid = tids[m];
                let h: Hit = Hit { tid, tier, recheck: false, tier_is_bound: false };
                proof {
                    assert(tids@.contains(tid));
                    assert(segment.live_found(PlanView::Term(d), live).contains(tid));
                    let terms = segment.terms_at(tid);
                    segment.candidates_hold_matches(PlanView::Term(d), false, tid);
                    assert(src.indexed(seg as int, tid, terms));
                    assert(some_accepted(PlanView::Term(d), terms));
                    assert(terms.contains(d));
                    lemma_single(q, terms, d, tier as int);
                    assert(src.indexed(seg as int, h.tid, terms) && belongs(q, f, *src, seg as int, terms, h) && segment_flags(q, f, h));
                    if !self.emitted.tids().contains(tid) {
                        assert forall|t: int| 0 <= t < tier implies !#[trigger] wanted(q, f, *src, tid, t) by {
                        }
                        assert(sound(q, f, *src, h));
                    }
                }
                self.offer(h, src);
                m = m + 1;
            }
            proof {
                assert forall|tid: Tid, terms: Set<Seq<char>>| #[trigger] src.indexed(seg as int, tid, terms) && terms.contains(d)
                    implies self.emitted.tids().contains(tid) by {
                    assert(some_accepted(PlanView::Term(d), terms));
                    segment.candidates_hold_matches(PlanView::Term(d), false, tid);
                    assert(segment.live_found(PlanView::Term(d), live).contains(tid));
                    assert(tids@.contains(tid));
                    let x = tids@.index_of(tid);
                    assert(self.emitted.tids().contains(tids@[x]));
                }
                lemma_stream_term(q, *src, done, self.emitted.tids(), tier as int, seg as int, ts, k as int);
            }
            k = k + 1;
        }
        self.step = Step::Stream { seg, terms, from: end };
        proof {
            assert(self.given() =~= before.given());
        }
    }
}

/// A pending document's tier and whether it passes the filter.
spec fn info_ok(q: SearchBox, f: Option<PlanView>, terms: Set<Seq<char>>, info: (u8, bool)) -> bool {
    &&& info.0 <= NO_TIER
    &&& forall|k: int| 0 <= k <= MAX_TIER ==> (#[trigger] q.found(terms, k) <==> info.0 <= k)
    &&& info.1 == passes(f, terms)
}

spec fn infos_ok(q: SearchBox, f: Option<PlanView>, src: Sources<'_>, info: Seq<(u8, bool)>) -> bool {
    &&& info.len() == src.pending@.len()
    &&& forall|j: int| 0 <= j < info.len() ==> info_ok(q, f, (#[trigger] src.pending@[j]).term_set(), info[j])
}

/// The terms of segment `i` that match the single term of the query at `tier`.
spec fn accepts_of(q: SearchBox, src: Sources<'_>, tier: int, i: int, ts: Seq<Seq<char>>) -> bool {
    &&& forall|m: int| 0 <= m < ts.len() ==> holds_at(q.words()[0], #[trigger] ts[m], tier)
    &&& forall|d: Seq<char>|
        #[trigger] src.segments@[i].0.values().dom().contains(vstd::utf8::encode_utf8(d)) && holds_at(q.words()[0], d, tier) ==> ts.contains(d)
}

/// Streaming has put out all segments before `seg` and the first `from` terms
/// of it.
spec fn stream_ok(q: SearchBox, src: Sources<'_>, tids: Set<Tid>, tier: int, seg: int, ts: Seq<Seq<char>>, from: int) -> bool {
    &&& 0 <= seg <= src.segments@.len()
    &&& 0 <= from <= ts.len()
    &&& seg < src.segments@.len() ==> accepts_of(q, src, tier, seg, ts)
    &&& forall|i: int, tid: Tid, terms: Set<Seq<char>>, d: Seq<char>|
        0 <= i < seg && #[trigger] src.indexed(i, tid, terms) && #[trigger] terms.contains(d) && holds_at(q.words()[0], d, tier) ==> tids.contains(tid)
    &&& forall|m: int, tid: Tid, terms: Set<Seq<char>>|
        0 <= m < from && #[trigger] src.indexed(seg, tid, terms) && terms.contains(#[trigger] ts[m]) ==> tids.contains(tid)
}

proof fn lemma_stream_term(q: SearchBox, src: Sources<'_>, before: Set<Tid>, after: Set<Tid>, tier: int, seg: int, ts: Seq<Seq<char>>, k: int)
    requires
        stream_ok(q, src, before, tier, seg, ts, k),
        k < ts.len(),
        before.subset_of(after),
        forall|tid: Tid, terms: Set<Seq<char>>| #[trigger] src.indexed(seg, tid, terms) && terms.contains(ts[k]) ==> after.contains(tid),
    ensures
        stream_ok(q, src, after, tier, seg, ts, k + 1),
{
}

proof fn lemma_stream_segment(q: SearchBox, src: Sources<'_>, tids: Set<Tid>, tier: int, seg: int, ts: Seq<Seq<char>>, from: int)
    requires
        src.wf(),
        stream_ok(q, src, tids, tier, seg, ts, from),
        seg < src.segments@.len(),
        from == ts.len(),
    ensures
        forall|i: int, tid: Tid, terms: Set<Seq<char>>, d: Seq<char>|
            0 <= i < seg + 1 && #[trigger] src.indexed(i, tid, terms) && #[trigger] terms.contains(d) && holds_at(q.words()[0], d, tier) ==> tids.contains(tid),
{
    assert forall|i: int, tid: Tid, terms: Set<Seq<char>>, d: Seq<char>|
        0 <= i < seg + 1 && #[trigger] src.indexed(i, tid, terms) && #[trigger] terms.contains(d) && holds_at(q.words()[0], d, tier) implies tids.contains(tid) by {
        if i == seg {
            assert(src.segments@[seg].0.has(d, tid));
            assert(src.segments@[seg].0.values().dom().contains(vstd::utf8::encode_utf8(d)));
            assert(ts.contains(d));
            let m = ts.index_of(d);
            assert(terms.contains(ts[m]));
        }
    }
}

proof fn lemma_stream_done(
    q: SearchBox,
    src: Sources<'_>,
    before: Set<Tid>,
    after: Set<Tid>,
    tier: int,
    seg: int,
    ts: Seq<Seq<char>>,
    from: int,
)
    requires
        stream_ok(q, src, before, tier, seg, ts, from),
        seg >= src.segments@.len(),
        streamed(q, None, tier),
        in_use(q.words()[0], tier, q.typos()),
        complete(q, None, src, after, tier - 1),
        before.subset_of(after),
        forall|j: int, tid: Tid, terms: Set<Seq<char>>| #[trigger] src.waits(j, tid, terms) && wants(q, None, terms, tier) ==> after.contains(tid),
    ensures
        complete(q, None, src, after, tier),
{
    assert forall|tid: Tid, t: int| 0 <= t <= tier && #[trigger] wanted(q, None, src, tid, t) implies after.contains(tid) by {
        if t == tier {
            if exists|i: int, terms: Set<Seq<char>>| #[trigger] src.indexed(i, tid, terms) && wants(q, None, terms, t) {
                let (i, terms) = choose|i: int, terms: Set<Seq<char>>| #[trigger] src.indexed(i, tid, terms) && wants(q, None, terms, t);
                lemma_single_split(q, terms, tier);
                if q.found(terms, tier - 1) {
                    assert(wants(q, None, terms, tier - 1));
                    assert(wanted(q, None, src, tid, tier - 1));
                } else {
                    let d = choose|d: Seq<char>| #[trigger] terms.contains(d) && holds_at(q.words()[0], d, tier);
                    assert(before.contains(tid));
                }
            }
        }
    }
}

/// A document term that matches at a tier puts the document there.
proof fn lemma_single(q: SearchBox, terms: Set<Seq<char>>, d: Seq<char>, tier: int)
    requires
        q.words().len() == 1,
        0 <= tier,
        in_use(q.words()[0], tier, q.typos()),
        terms.contains(d),
        holds_at(q.words()[0], d, tier),
    ensures
        q.found(terms, tier),
{
    assert(term_within(q.words()[0], d, tier, q.typos()));
    assert(term_found(q.words()[0], terms, tier, q.typos()));
}

/// A document at a tier of a single term has a term that matches there, or is
/// at a better tier.
proof fn lemma_single_split(q: SearchBox, terms: Set<Seq<char>>, tier: int)
    requires
        q.words().len() == 1,
        0 <= tier,
        q.found(terms, tier),
    ensures
        q.found(terms, tier - 1) || exists|d: Seq<char>| #[trigger] terms.contains(d) && holds_at(q.words()[0], d, tier) && in_use(
            q.words()[0],
            tier,
            q.typos(),
        ),
{
    let w = q.words()[0];
    assert(term_found(w, terms, tier, q.typos()));
    let d = choose|d: Seq<char>| #[trigger] terms.contains(d) && term_within(w, d, tier, q.typos());
    let k = choose|k: int| 0 <= k <= tier && #[trigger] in_use(w, k, q.typos()) && holds_at(w, d, k);
    if k < tier {
        assert(term_within(w, d, tier - 1, q.typos()));
        assert(term_found(w, terms, tier - 1, q.typos()));
    }
}

/// A tier's plan finds only what comes out there, and all that has not come
/// out before.
spec fn run_covers(q: SearchBox, f: Option<PlanView>, tier: int) -> bool {
    &&& forall|terms: Set<Seq<char>>| #[trigger] plan_matches(tier_run(q, f, tier), terms) ==> wants(q, f, terms, tier)
    &&& forall|terms: Set<Seq<char>>|
        #[trigger] wants(q, f, terms, tier) && !plan_matches(tier_run(q, f, tier), terms) ==> tier > 0 && wants(q, f, terms, tier - 1)
}

proof fn lemma_run_covers(q: SearchBox, f: Option<PlanView>, tier: int)
    requires
        0 <= tier <= NO_TIER,
        tier == NO_TIER ==> f is Some,
        f is None && q.words().len() == 1 ==> in_use(q.words()[0], tier, q.typos()),
    ensures
        run_covers(q, f, tier),
{
    let run = tier_run(q, f, tier);
    assert forall|terms: Set<Seq<char>>| #[trigger] plan_matches(run, terms) implies wants(q, f, terms, tier) by {
        lemma_run(q, f, terms, tier);
    }
    assert forall|terms: Set<Seq<char>>| #[trigger] wants(q, f, terms, tier) && !plan_matches(run, terms) implies tier > 0 && wants(q, f, terms, tier - 1) by {
        lemma_run(q, f, terms, tier);
    }
}

proof fn lemma_run(q: SearchBox, f: Option<PlanView>, terms: Set<Seq<char>>, tier: int)
    requires
        0 <= tier <= NO_TIER,
        tier == NO_TIER ==> f is Some,
        f is None && q.words().len() == 1 ==> in_use(q.words()[0], tier, q.typos()),
    ensures
        plan_matches(tier_run(q, f, tier), terms) ==> wants(q, f, terms, tier),
        wants(q, f, terms, tier) && !plan_matches(tier_run(q, f, tier), terms) ==> tier > 0 && wants(q, f, terms, tier - 1),
{
    plan_is_tier(q, terms, tier);
    match f {
        Some(p) => {
            if tier < NO_TIER {
                let both = seq![q.plan_at(tier), p];
                lemma_plan_parts(both, terms);
                assert(both[0] == q.plan_at(tier) && both[1] == p);
                if plan_matches(PlanView::And(both), terms) {
                    assert(plan_matches(both[0], terms) && plan_matches(both[1], terms));
                }
            }
        },
        None => {
            if q.words().len() == 1 {
                let w = q.words()[0];
                let run = tier_plan(w, tier);
                assert(plan_matches(run, terms) == some_accepted(run, terms));
                assert forall|d: Seq<char>| #[trigger] plan_accepts(run, d) == holds_at(w, d, tier) by {
                }
                if plan_matches(run, terms) {
                    let d = choose|d: Seq<char>| #[trigger] terms.contains(d) && plan_accepts(run, d);
                    lemma_single(q, terms, d, tier);
                }
                if wants(q, f, terms, tier) {
                    lemma_single_split(q, terms, tier);
                    if !q.found(terms, tier - 1) {
                        let d = choose|d: Seq<char>| #[trigger] terms.contains(d) && holds_at(w, d, tier) && in_use(w, tier, q.typos());
                        assert(plan_accepts(run, d));
                    } else if tier == 0 {
                        assert(term_found(w, terms, -1, q.typos()));
                    }
                }
            }
        },
    }
}

proof fn lemma_tier_run(q: SearchBox, f: Option<PlanView>, tier: int)
    requires
        0 <= tier < NO_TIER,
    ensures
        f is None ==> tier_run(q, f, tier) == own_plan(q, tier),
        f is Some ==> tier_run(q, f, tier) == PlanView::And(seq![q.plan_at(tier), f->0]),
{
}

/// Without a filter nothing comes last.
proof fn lemma_no_filter(q: SearchBox, f: Option<PlanView>, src: Sources<'_>, tids: Set<Tid>)
    requires
        f is None,
        complete(q, f, src, tids, NO_TIER - 1),
    ensures
        complete(q, f, src, tids, NO_TIER as int),
{
    assert forall|tid: Tid, t: int| 0 <= t <= NO_TIER && #[trigger] wanted(q, f, src, tid, t) implies tids.contains(tid) by {
        if t == NO_TIER {
            assert(forall|terms: Set<Seq<char>>| !wants(q, f, terms, t));
        }
    }
}

/// A tier that no term gains anything at holds nothing new.
proof fn lemma_idle_tier(q: SearchBox, f: Option<PlanView>, src: Sources<'_>, tids: Set<Tid>, tier: int)
    requires
        0 <= tier < NO_TIER,
        complete(q, f, src, tids, tier - 1),
        forall|i: int| 0 <= i < q.words().len() ==> !in_use(#[trigger] q.words()[i], tier, q.typos()),
    ensures
        complete(q, f, src, tids, tier),
{
    assert forall|terms: Set<Seq<char>>| wants(q, f, terms, tier) implies tier > 0 && #[trigger] wants(q, f, terms, tier - 1) by {
        assert forall|i: int| 0 <= i < q.words().len() implies term_found(#[trigger] q.words()[i], terms, tier - 1, q.typos()) by {
            let w = q.words()[i];
            assert(term_found(w, terms, tier, q.typos()));
            let d = choose|d: Seq<char>| #[trigger] terms.contains(d) && term_within(w, d, tier, q.typos());
            let k = choose|k: int| 0 <= k <= tier && #[trigger] in_use(w, k, q.typos()) && holds_at(w, d, k);
            assert(k != tier);
            assert(term_within(w, d, tier - 1, q.typos()));
        }
        if tier == 0 {
            assert(term_found(q.words()[0], terms, -1, q.typos()));
        }
        assert(q.found(terms, tier - 1));
    }
    assert forall|tid: Tid, t: int| 0 <= t <= tier && #[trigger] wanted(q, f, src, tid, t) implies tids.contains(tid) by {
        if t == tier {
            if exists|i: int, terms: Set<Seq<char>>| #[trigger] src.indexed(i, tid, terms) && wants(q, f, terms, t) {
                let (i, terms) = choose|i: int, terms: Set<Seq<char>>| #[trigger] src.indexed(i, tid, terms) && wants(q, f, terms, t);
                assert(wants(q, f, terms, tier - 1));
            } else {
                let (j, terms) = choose|j: int, terms: Set<Seq<char>>| #[trigger] src.waits(j, tid, terms) && wants(q, f, terms, t);
                assert(wants(q, f, terms, tier - 1));
            }
            assert(wanted(q, f, src, tid, tier - 1));
        }
    }
}

/// How far a tier is: not started, streaming, done.
spec fn stage(s: Step) -> int {
    match s {
        Step::Start => 2,
        Step::Stream { .. } => 1,
        Step::Done => 0,
    }
}

spec fn streams_left(s: Step, src: Sources<'_>) -> int {
    match s {
        Step::Stream { seg, .. } => src.segments@.len() + 1 - seg,
        _ => 0,
    }
}

spec fn terms_left(s: Step) -> int {
    match s {
        Step::Stream { terms, from, .. } => terms@.len() + 1 - from,
        _ => 0,
    }
}

/// Nothing buffered or put out, nothing handed out.
proof fn lemma_same_given(a: Ranked, b: Ranked)
    requires
        b.at == a.at,
        b.buf@ == a.buf@,
        b.emitted.tids() == a.emitted.tids(),
    ensures
        a.given() == b.given(),
{
    assert forall|t: Tid| a.given().contains(t) <==> b.given().contains(t) by {
        if a.buffers(t) {
            let i = choose|i: int| a.at <= i < a.buf@.len() && (#[trigger] a.buf@[i]).tid == t;
            assert(b.buf@[i].tid == t);
        }
        if b.buffers(t) {
            let i = choose|i: int| b.at <= i < b.buf@.len() && (#[trigger] b.buf@[i]).tid == t;
            assert(a.buf@[i].tid == t);
        }
    }
    assert(a.given() =~= b.given());
}

proof fn lemma_pushed(a: Ranked, b: Ranked, h: Hit, t: Tid)
    requires
        a.at <= a.buf@.len(),
        b.at == a.at,
        b.buf@ == a.buf@.push(h),
        !a.emitted.tids().contains(h.tid),
        b.emitted.tids() == a.emitted.tids().insert(h.tid),
    ensures
        a.given().contains(t) <==> b.given().contains(t),
{
    let n = a.buf@.len() as int;
    assert(b.buf@[n] == h);
    if a.buffers(t) {
        let i = choose|i: int| a.at <= i < a.buf@.len() && (#[trigger] a.buf@[i]).tid == t;
        assert(b.buf@[i].tid == t);
    }
    if b.buffers(t) && t != h.tid {
        let i = choose|i: int| b.at <= i < b.buf@.len() && (#[trigger] b.buf@[i]).tid == t;
        assert(a.buf@[i].tid == t);
    }
}

proof fn lemma_pushed_ok(a: Ranked, b: Ranked, h: Hit, src: Sources<'_>)
    requires
        a.base(src),
        b.at == a.at,
        b.buf@ == a.buf@.push(h),
        b.query == a.query,
        b.filter == a.filter,
        b.pending == a.pending,
        b.tier == a.tier,
        h.tier == a.tier,
        !a.emitted.tids().contains(h.tid),
        b.emitted.tids() == a.emitted.tids().insert(h.tid),
        sound(a.query, filter_view(a.filter), src, h),
    ensures
        b.base(src),
{
    let n = a.buf@.len() as int;
    assert forall|i: int| b.at <= i < b.buf@.len() implies {
        &&& b.emitted.tids().contains((#[trigger] b.buf@[i]).tid)
        &&& b.buf@[i].tier == b.tier
        &&& sound(b.query, filter_view(b.filter), src, b.buf@[i])
    } by {
        if i < n {
            assert(b.buf@[i] == a.buf@[i]);
        }
    }
    assert forall|i: int, j: int| b.at <= i < j < b.buf@.len() implies (#[trigger] b.buf@[i]).tid != (#[trigger] b.buf@[j]).tid by {
        assert(b.buf@[i] == a.buf@[i]);
        if j < n {
            assert(b.buf@[j] == a.buf@[j]);
        }
    }
}

proof fn lemma_popped(a: Ranked, b: Ranked, src: Sources<'_>)
    requires
        a.wf(src),
        a.at < a.buf@.len(),
        b.at == a.at + 1,
        b == (Ranked { at: b.at, ..a }),
    ensures
        b.wf(src),
        !a.given().contains(a.buf@[a.at as int].tid),
        b.given() == a.given().insert(a.buf@[a.at as int].tid),
        sound(a.query, filter_view(a.filter), src, a.buf@[a.at as int]),
        a.buf@[a.at as int].tier == a.tier,
        forall|tid: Tid, t: int|
            0 <= t < a.tier && #[trigger] wanted(a.query, filter_view(a.filter), src, tid, t) ==> a.given().contains(tid),
{
    let h = a.buf@[a.at as int];
    assert(a.buffers(h.tid));
    assert(a.emitted.tids().contains(h.tid));
    assert forall|t: Tid| b.given().contains(t) <==> a.given().insert(h.tid).contains(t) by {
        if b.buffers(t) {
            let i = choose|i: int| b.at <= i < b.buf@.len() && (#[trigger] b.buf@[i]).tid == t;
            assert(a.buf@[i].tid == t);
            assert(a.buffers(t));
            assert(t != h.tid);
        }
        if a.buffers(t) && t != h.tid {
            let i = choose|i: int| a.at <= i < a.buf@.len() && (#[trigger] a.buf@[i]).tid == t;
            assert(b.buf@[i].tid == t);
            assert(b.buffers(t));
        }
    }
    assert(b.given() =~= a.given().insert(h.tid));
    let (q, f) = (a.query, filter_view(a.filter));
    assert forall|tid: Tid, t: int| 0 <= t < a.tier && #[trigger] wanted(q, f, src, tid, t) implies a.given().contains(tid) by {
        assert(a.emitted.tids().contains(tid));
        if a.buffers(tid) {
            let i = choose|i: int| a.at <= i < a.buf@.len() && (#[trigger] a.buf@[i]).tid == tid;
            assert(sound(q, f, src, a.buf@[i]));
            assert(!wanted(q, f, src, tid, t));
        }
    }
}

// ---------------------------------------------------------------------------
// What a hit says
// ---------------------------------------------------------------------------

/// A hit that needs no recheck is a match, and its tier is the best that the
/// tuple has.
pub proof fn unchecked_hits_are_matches(q: SearchBox, f: Option<PlanView>, src: Sources<'_>, h: Hit)
    requires
        sound(q, f, src, h),
        !h.recheck,
    ensures
        wanted(q, f, src, h.tid, h.tier as int),
        forall|t: int| 0 <= t < h.tier ==> !#[trigger] wanted(q, f, src, h.tid, t),
{
    if exists|i: int, terms: Set<Seq<char>>| #[trigger] src.indexed(i, h.tid, terms) && belongs(q, f, src, i, terms, h) && segment_flags(q, f, h) {
        let (i, terms) = choose|i: int, terms: Set<Seq<char>>|
            #[trigger] src.indexed(i, h.tid, terms) && belongs(q, f, src, i, terms, h) && segment_flags(q, f, h);
        assert(src.indexed(i, h.tid, terms) && wants(q, f, terms, h.tier as int));
    } else {
        let (j, terms) = choose|j: int, terms: Set<Seq<char>>|
            #[trigger] src.waits(j, h.tid, terms) && wants(q, f, terms, h.tier as int) && pending_flags(f, h);
        assert(src.waits(j, h.tid, terms) && wants(q, f, terms, h.tier as int));
    }
}

/// The tuple has the query's words at a tier.
pub open spec fn at_tier(q: SearchBox, src: Sources<'_>, tid: Tid, tier: int) -> bool {
    ||| exists|i: int, terms: Set<Seq<char>>| #[trigger] src.indexed(i, tid, terms) && q.found(terms, tier)
    ||| exists|j: int, terms: Set<Seq<char>>| #[trigger] src.waits(j, tid, terms) && q.found(terms, tier)
}

/// A tier that is no bound is a tier of the tuple, also where its filter has to
/// be rechecked.
pub proof fn unbound_tiers_hold(q: SearchBox, f: Option<PlanView>, src: Sources<'_>, h: Hit)
    requires
        src.wf(),
        sound(q, f, src, h),
        h.tier < 5,
        !h.tier_is_bound,
    ensures
        at_tier(q, src, h.tid, h.tier as int),
{
    let t = h.tier as int;
    if exists|i: int, terms: Set<Seq<char>>| #[trigger] src.indexed(i, h.tid, terms) && belongs(q, f, src, i, terms, h) && segment_flags(q, f, h) {
        let (i, terms) = choose|i: int, terms: Set<Seq<char>>|
            #[trigger] src.indexed(i, h.tid, terms) && belongs(q, f, src, i, terms, h) && segment_flags(q, f, h);
        let seg = *src.segments@[i].0;
        if seg.spec_meta().grams && h.recheck {
            let run = tier_run(q, f, t);
            assert(f is Some);
            let parts = seq![q.plan_at(t), f->0];
            assert(run == PlanView::And(parts));
            assert(seg.yields(run, false, h.tid));
            assert(run->And_0[0] == q.plan_at(t));
            assert(seg.yields(q.plan_at(t), false, h.tid));
            assert(src.segments@[i].0.wf());
            seg.candidates_hold_matches(q.plan_at(t), false, h.tid);
            plan_is_tier(q, terms, t);
        }
        assert(src.indexed(i, h.tid, terms) && q.found(terms, t));
    } else {
        let (j, terms) = choose|j: int, terms: Set<Seq<char>>|
            #[trigger] src.waits(j, h.tid, terms) && wants(q, f, terms, h.tier as int) && pending_flags(f, h);
        assert(src.waits(j, h.tid, terms) && q.found(terms, t));
    }
}

/// A tuple that passes the filter is wanted at the last, and at its tier if it
/// has one; without a filter only what has a tier is wanted.
pub proof fn filters_keep_what_passes(q: SearchBox, f: Option<PlanView>, terms: Set<Seq<char>>, tier: int)
    requires
        0 <= tier < 5,
    ensures
        wants(q, f, terms, 5) <==> f is Some && plan_matches(f->0, terms),
        f is None ==> (wants(q, f, terms, tier) <==> q.found(terms, tier)),
        f is Some ==> (wants(q, f, terms, tier) <==> q.found(terms, tier) && plan_matches(f->0, terms)),
{
}

} // verus!
