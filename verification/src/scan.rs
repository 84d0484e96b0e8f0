//! Scans: from index conditions to plans, what a cached copy of an index has
//! to reload, and what rechecking candidates costs.

use vstd::prelude::*;
use crate::drive::{alive, is_listing};
use crate::meta::Meta;
use crate::plan::{lemma_plan_parts, lemma_plan_view, plan_matches, plan_views, Plan, PlanView, SortedTerms};
use crate::rank::{filter_view, PendingDoc, Ranked, Sources, NO_TIER};
use crate::search::{plan_is_tier, tiers_are_nested, SearchBox, MAX_TIER};
use crate::segment::{lemma_runnable_parts, runnable, Segment};
use crate::tid::Tid;
use crate::tokenize::{sorted_terms, strings_view};

verus! {

/// One index condition.
pub enum Cond {
    Match(Plan),
    Search(SearchBox),
}

impl Cond {
    /// The plan that answers the condition.
    pub open spec fn spec_plan(self) -> PlanView {
        match self {
            Cond::Match(p) => p.view(),
            Cond::Search(s) => s.plan_at(MAX_TIER as int),
        }
    }

    pub fn plan(&self) -> (r: Plan)
        ensures
            r.view() == self.spec_plan(),
            self is Search ==> runnable(r.view()),
    {
        match self {
            Cond::Match(p) => p.copy(),
            Cond::Search(s) => s.plan(MAX_TIER),
        }
    }
}

/// The plans of conditions.
pub open spec fn cond_plans(conds: Seq<Cond>) -> Seq<PlanView> {
    Seq::new(conds.len(), |i: int| conds[i].spec_plan())
}

/// All of the plans together; none if there are none.
pub open spec fn all_of(plans: Seq<PlanView>) -> Option<PlanView> {
    if plans.len() == 0 {
        None
    } else if plans.len() == 1 {
        Some(plans[0])
    } else {
        Some(PlanView::And(plans))
    }
}

/// All of the plans together.
pub fn and(plans: Vec<Plan>) -> (r: Option<Plan>)
    ensures
        filter_view(r) == all_of(plan_views(plans@)),
{
    let n: usize = plans.len();
    let mut plans: Vec<Plan> = plans;
    if n == 0 {
        return None;
    }
    if n == 1 {
        let ghost v = plan_views(plans@);
        let p: Option<Plan> = plans.pop();
        proof {
            assert(p->0.view() == v[0]);
        }
        return p;
    }
    let p: Plan = Plan::And(plans);
    proof {
        lemma_plan_view(p);
    }
    Some(p)
}

/// The plan of all conditions.
pub fn scan_plan(conds: &Vec<Cond>) -> (r: Option<Plan>)
    requires
        forall|i: int| 0 <= i < conds@.len() ==> runnable((#[trigger] conds@[i]).spec_plan()),
    ensures
        filter_view(r) == all_of(cond_plans(conds@)),
        r matches Some(p) ==> runnable(p.view()),
{
    let mut plans: Vec<Plan> = Vec::new();
    let mut i: usize = 0;
    while i < conds.len()
        invariant
            i <= conds@.len(),
            plans@.len() == i,
            forall|k: int| 0 <= k < i ==> (#[trigger] plans@[k]).view() == conds@[k].spec_plan(),
        decreases conds@.len() - i,
    {
        plans.push(conds[i].plan());
        i = i + 1;
    }
    proof {
        let v = plan_views(plans@);
        assert(v =~= cond_plans(conds@));
        assert forall|k: int| 0 <= k < v.len() implies runnable(#[trigger] v[k]) by {
            assert(runnable(conds@[k].spec_plan()));
        }
        lemma_runnable_parts(v);
    }
    and(plans)
}

/// Whether the scan's conditions are all the search that it is ordered by.
pub open spec fn only_order(order: Option<SearchBox>, conds: Seq<Cond>) -> bool {
    order matches Some(q) && forall|i: int|
        0 <= i < conds.len() ==> {
            &&& (#[trigger] conds[i]) is Search
            &&& conds[i]->Search_0.words() == q.words()
            &&& conds[i]->Search_0.typos() == q.typos()
        }
}

/// The filter of an ordered scan. A search-box scan whose only conditions are
/// the same search needs no filter: every tier row satisfies them (and tiers
/// can stream).
pub fn scan_filter(order: &Option<SearchBox>, null_order: bool, conds: &Vec<Cond>) -> (r: Option<Plan>)
    requires
        forall|i: int| 0 <= i < conds@.len() ==> runnable((#[trigger] conds@[i]).spec_plan()),
    ensures
        filter_view(r) == if !null_order && only_order(*order, conds@) { None } else { all_of(cond_plans(conds@)) },
        r matches Some(p) ==> runnable(p.view()),
{
    if !null_order {
        if let Some(q) = order {
            let mut same: bool = true;
            let mut i: usize = 0;
            while i < conds.len()
                invariant
                    i <= conds@.len(),
                    same == forall|k: int|
                        0 <= k < i ==> {
                            &&& (#[trigger] conds@[k]) is Search
                            &&& conds@[k]->Search_0.words() == q.words()
                            &&& conds@[k]->Search_0.typos() == q.typos()
                        },
                decreases conds@.len() - i,
            {
                let one: bool = match &conds[i] {
                    Cond::Search(s) => s.same(q),
                    Cond::Match(_) => false,
                };
                same = same && one;
                i = i + 1;
            }
            if same {
                return None;
            }
        }
    }
    scan_plan(conds)
}

/// The ranked scan of an ordering (or none) and conditions.
pub fn ranked_scan(order: Option<SearchBox>, none: SearchBox, null_order: bool, conds: &Vec<Cond>) -> (r: Ranked)
    requires
        forall|i: int| 0 <= i < conds@.len() ==> runnable((#[trigger] conds@[i]).spec_plan()),
        none.words().len() == 0,
    ensures
        r.box_of() == (match order {
            Some(q) => q,
            None => none,
        }),
        r.filter_of() == if !null_order && only_order(order, conds@) { None } else { all_of(cond_plans(conds@)) },
        r.tier_now() == 0,
        r.given() == Set::<Tid>::empty(),
        forall|src: Sources<'_>| src.wf() ==> #[trigger] r.wf(src),
{
    let filter: Option<Plan> = scan_filter(&order, null_order, conds);
    let query: SearchBox = match order {
        Some(q) => q,
        None => none,
    };
    Ranked::new(query, filter)
}

/// The matches of one source.
pub open spec fn source_hits(src: Sources<'_>, p: PlanView, tid: Tid) -> bool {
    ||| exists|i: int, terms: Set<Seq<char>>| #[trigger] src.indexed(i, tid, terms) && plan_matches(p, terms)
    ||| exists|j: int, terms: Set<Seq<char>>| #[trigger] src.waits(j, tid, terms) && plan_matches(p, terms)
}

/// A scan of segment `i` for a plan gives the live tuple `tid`.
pub open spec fn segment_gives(src: Sources<'_>, i: int, p: PlanView, tid: Tid) -> bool {
    &&& 0 <= i < src.segments@.len()
    &&& alive(src.segments@[i].0.dir(), src.segments@[i].1, tid)
    &&& src.segments@[i].0.yields(p, false, tid)
}

/// A scan of the sources for a plan gives the tuple.
pub open spec fn source_gives(src: Sources<'_>, p: PlanView, tid: Tid) -> bool {
    ||| exists|i: int| #[trigger] segment_gives(src, i, p, tid)
    ||| exists|j: int, terms: Set<Seq<char>>| #[trigger] src.waits(j, tid, terms) && plan_matches(p, terms)
}

/// No segment stores grams.
pub open spec fn plain(src: Sources<'_>) -> bool {
    forall|i: int| 0 <= i < src.segments@.len() ==> !(#[trigger] src.segments@[i]).0.spec_meta().grams
}

/// A scan gives every match, and nothing else unless it is for a plan whose
/// candidates must be rechecked, on segments with grams.
pub proof fn scans_hold_matches(src: Sources<'_>, p: PlanView, tid: Tid)
    requires
        src.wf(),
    ensures
        source_hits(src, p, tid) ==> source_gives(src, p, tid),
        plain(src) || !p.inexact() ==> (source_gives(src, p, tid) <==> source_hits(src, p, tid)),
{
    if exists|i: int, terms: Set<Seq<char>>| #[trigger] src.indexed(i, tid, terms) && plan_matches(p, terms) {
        let (i, terms) = choose|i: int, terms: Set<Seq<char>>| #[trigger] src.indexed(i, tid, terms) && plan_matches(p, terms);
        assert(src.segments@[i].0.wf());
        src.segments@[i].0.candidates_hold_matches(p, false, tid);
        assert(segment_gives(src, i, p, tid));
    }
    if (plain(src) || !p.inexact()) && exists|i: int| #[trigger] segment_gives(src, i, p, tid) {
        let i = choose|i: int| #[trigger] segment_gives(src, i, p, tid);
        assert(src.segments@[i].0.wf());
        src.segments@[i].0.candidates_hold_matches(p, false, tid);
        assert(src.indexed(i, tid, src.segments@[i].0.terms_at(tid)));
    }
}

/// Every tuple of the sources that matches, and with grams the candidates,
/// segment by segment and then the pending documents; a tuple in several of
/// them comes as often.
pub fn bitmap_tids(src: &Sources<'_>, plan: &Plan) -> (r: Vec<Tid>)
    requires
        src.wf(),
        runnable(plan.view()),
    ensures
        forall|tid: Tid| #[trigger] r@.contains(tid) <==> source_gives(*src, plan.view(), tid),
        forall|tid: Tid| source_hits(*src, plan.view(), tid) ==> #[trigger] r@.contains(tid),
        plain(*src) || !plan.view().inexact() ==> forall|tid: Tid| #[trigger] r@.contains(tid) <==> source_hits(*src, plan.view(), tid),
{
    let ghost p = plan.view();
    let mut out: Vec<Tid> = Vec::new();
    let mut i: usize = 0;
    while i < src.segments.len()
        invariant
            src.wf(),
            runnable(p),
            p == plan.view(),
            i <= src.segments@.len(),
            forall|tid: Tid| #[trigger] out@.contains(tid) <==> exists|k: int| k < i && #[trigger] segment_gives(*src, k, p, tid),
        decreases src.segments@.len() - i,
    {
        let seg: &Segment = src.segments[i].0;
        let live: Option<&[u64]> = src.segments[i].1;
        proof {
            assert(src.segments@[i as int].0.wf());
        }
        let ghost was = out@;
        seg.collect_live(plan, live, &mut out);
        proof {
            let l = choose|l: Seq<Tid>| is_listing(l, seg.live_found(p, live)) && out@ == was + l;
            assert forall|tid: Tid| #[trigger] out@.contains(tid) <==> exists|k: int| k < i + 1 && #[trigger] segment_gives(*src, k, p, tid) by {
                lemma_joined(was, l, tid);
                if was.contains(tid) {
                    let k = choose|k: int| k < i && #[trigger] segment_gives(*src, k, p, tid);
                    assert(k < i + 1 && segment_gives(*src, k, p, tid));
                }
                if l.contains(tid) {
                    assert(seg.live_found(p, live).contains(tid));
                    assert(segment_gives(*src, i as int, p, tid));
                }
                if exists|k: int| k < i + 1 && #[trigger] segment_gives(*src, k, p, tid) {
                    let k = choose|k: int| k < i + 1 && #[trigger] segment_gives(*src, k, p, tid);
                    if k == i {
                        assert(seg.live_found(p, live).contains(tid));
                    } else {
                        assert(k < i && segment_gives(*src, k, p, tid));
                    }
                }
            }
        }
        i = i + 1;
    }
    let mut j: usize = 0;
    let ghost segs = out@;
    while j < src.pending.len()
        invariant
            src.wf(),
            p == plan.view(),
            j <= src.pending@.len(),
            forall|tid: Tid| #[trigger] out@.contains(tid) <==> segs.contains(tid) || exists|k: int, terms: Set<Seq<char>>|
                k < j && #[trigger] src.waits(k, tid, terms) && plan_matches(p, terms),
        decreases src.pending@.len() - j,
    {
        let d: &PendingDoc = &src.pending[j];
        let ghost was = out@;
        proof {
            assert(sorted_terms(strings_view(src.pending@[j as int].terms@)));
        }
        let hit: bool = plan.matches(&SortedTerms(d.terms.as_slice()));
        if hit {
            out.push(d.tid);
        }
        proof {
            assert forall|tid: Tid| #[trigger] out@.contains(tid) <==> segs.contains(tid) || exists|k: int, terms: Set<Seq<char>>|
                k < j + 1 && #[trigger] src.waits(k, tid, terms) && plan_matches(p, terms) by {
                if hit {
                    lemma_joined(was, seq![d.tid], tid);
                    assert(out@ =~= was + seq![d.tid]);
                    assert(seq![d.tid][0] == d.tid);
                }
                if was.contains(tid) && !segs.contains(tid) {
                    let (k, terms) = choose|k: int, terms: Set<Seq<char>>| k < j && #[trigger] src.waits(k, tid, terms) && plan_matches(p, terms);
                    assert(k < j + 1 && src.waits(k, tid, terms) && plan_matches(p, terms));
                }
                if hit && tid == d.tid {
                    assert(src.waits(j as int, tid, d.term_set()) && plan_matches(p, d.term_set()));
                }
                if exists|k: int, terms: Set<Seq<char>>| k < j + 1 && #[trigger] src.waits(k, tid, terms) && plan_matches(p, terms) {
                    let (k, terms) = choose|k: int, terms: Set<Seq<char>>|
                        k < j + 1 && #[trigger] src.waits(k, tid, terms) && plan_matches(p, terms);
                    if k < j {
                        assert(k < j && src.waits(k, tid, terms) && plan_matches(p, terms));
                    }
                }
            }
        }
        j = j + 1;
    }
    proof {
        assert forall|tid: Tid| #[trigger] out@.contains(tid) <==> source_gives(*src, p, tid) by {
            if out@.contains(tid) && !segs.contains(tid) {
                let (k, terms) = choose|k: int, terms: Set<Seq<char>>| k < j && #[trigger] src.waits(k, tid, terms) && plan_matches(p, terms);
                assert(src.waits(k, tid, terms) && plan_matches(p, terms));
            }
            if segs.contains(tid) {
                let k = choose|k: int| k < i && #[trigger] segment_gives(*src, k, p, tid);
                assert(segment_gives(*src, k, p, tid));
            }
        }
        assert forall|tid: Tid| source_hits(*src, p, tid) implies #[trigger] out@.contains(tid) by {
            scans_hold_matches(*src, p, tid);
        }
        if plain(*src) || !p.inexact() {
            assert forall|tid: Tid| #[trigger] out@.contains(tid) <==> source_hits(*src, p, tid) by {
                scans_hold_matches(*src, p, tid);
            }
        }
    }
    out
}

proof fn lemma_joined(a: Seq<Tid>, b: Seq<Tid>, t: Tid)
    ensures
        (a + b).contains(t) <==> a.contains(t) || b.contains(t),
{
    let s = a + b;
    if a.contains(t) {
        assert(s[a.index_of(t)] == t);
    }
    if b.contains(t) {
        assert(s[a.len() + b.index_of(t)] == t);
    }
    if s.contains(t) {
        let i = s.index_of(t);
        if i < a.len() {
            assert(a[i] == t);
        } else {
            assert(b[i - a.len()] == t);
        }
    }
}

/// What a cached copy of an index has to reload.
#[derive(Copy, Clone, Debug, PartialEq, Eq, Structural)]
pub enum Refresh {
    /// Nothing.
    Nothing,
    /// The records appended since.
    Appended,
    /// Every segment's liveness and the whole pending list; segments not seen
    /// before.
    Everything,
}

/// What a cached copy, as of `generation` and `pending_total` pending bytes,
/// has to reload: everything if the generation moved (flush or VACUUM), the
/// new records if only the pending list grew.
pub fn refresh(generation: u64, pending_total: u64, meta: &Meta) -> (r: Refresh)
    ensures
        r == if meta.generation != generation {
            Refresh::Everything
        } else if meta.pending_bytes != pending_total {
            Refresh::Appended
        } else {
            Refresh::Nothing
        },
{
    if meta.generation != generation {
        Refresh::Everything
    } else if meta.pending_bytes != pending_total {
        Refresh::Appended
    } else {
        Refresh::Nothing
    }
}

/// The distance that an ordered scan reports for a hit's tier; `None` for
/// infinity.
pub fn distance(tier: u8) -> (r: Option<u8>)
    ensures
        r == if tier == NO_TIER { None } else { Some(tier) },
{
    if tier == NO_TIER {
        None
    } else {
        Some(tier)
    }
}

/// Pending records that a selectivity estimate evaluates; the rest are
/// assumed alike.
pub const PENDING_SAMPLE: usize = 1000;

/// How many of the first `n` pending documents match.
pub open spec fn count_matching(docs: Seq<PendingDoc>, p: PlanView, n: int) -> int
    decreases n,
{
    if n <= 0 {
        0
    } else {
        count_matching(docs, p, n - 1) + (if plan_matches(p, docs[n - 1].term_set()) { 1int } else { 0int })
    }
}

/// How many of a sample of the pending documents match, and how large the
/// sample is.
pub fn pending_sample(docs: &[PendingDoc], plan: &Plan) -> (r: (usize, usize))
    requires
        forall|j: int| 0 <= j < docs@.len() ==> sorted_terms(strings_view((#[trigger] docs@[j]).terms@)),
    ensures
        r.1 == if docs@.len() < PENDING_SAMPLE { docs@.len() as int } else { PENDING_SAMPLE as int },
        r.1 == docs@.len() || r.1 == 1000 < docs@.len(),
        r.0 == count_matching(docs@, plan.view(), r.1 as int),
        r.0 <= r.1,
{
    let n: usize = if docs.len() < PENDING_SAMPLE {
        docs.len()
    } else {
        PENDING_SAMPLE
    };
    let mut matched: usize = 0;
    let mut j: usize = 0;
    while j < n
        invariant
            j <= n <= docs@.len(),
            forall|k: int| 0 <= k < docs@.len() ==> sorted_terms(strings_view((#[trigger] docs@[k]).terms@)),
            matched <= j,
            matched == count_matching(docs@, plan.view(), j as int),
        decreases n - j,
    {
        proof {
            assert(sorted_terms(strings_view(docs@[j as int].terms@)));
        }
        if plan.matches(&SortedTerms(docs[j].terms.as_slice())) {
            matched = matched + 1;
        }
        j = j + 1;
    }
    (matched, n)
}

/// How often a plan's matches are rechecked: never if the index is exact,
/// once for fragment candidates, twice for phrases and proximity, whose
/// candidates are estimated at twice the matches.
pub open spec fn recheck_times(p: PlanView) -> int {
    if !p.inexact() {
        0
    } else if p is Recheck {
        2
    } else {
        1
    }
}

/// The largest of the first `n`.
pub open spec fn most_rechecks(plans: Seq<PlanView>, n: int) -> int
    decreases n,
{
    if n <= 0 {
        0
    } else if recheck_times(plans[n - 1]) > most_rechecks(plans, n - 1) {
        recheck_times(plans[n - 1])
    } else {
        most_rechecks(plans, n - 1)
    }
}

/// The factor of the cost of rechecking an index path's candidates, from the
/// plans of its `==>` conditions; nothing for ordered scans.
pub fn recheck_cost(ordered: bool, plans: &Vec<Plan>) -> (r: u8)
    ensures
        r == if ordered { 0 } else { most_rechecks(plan_views(plans@), plans@.len() as int) },
        r <= 2,
{
    if ordered {
        return 0;
    }
    let mut factor: u8 = 0;
    let mut i: usize = 0;
    while i < plans.len()
        invariant
            i <= plans@.len(),
            factor <= 2,
            factor == most_rechecks(plan_views(plans@), i as int),
        decreases plans@.len() - i,
    {
        let p: &Plan = &plans[i];
        proof {
            assert(plan_views(plans@)[i as int] == p.view());
        }
        let times: u8 = if !p.needs_recheck() {
            0
        } else {
            match p {
                Plan::Recheck(_) => 2,
                _ => 1,
            }
        };
        if times > factor {
            factor = times;
        }
        i = i + 1;
    }
    factor
}

// ---------------------------------------------------------------------------
// Laws
// ---------------------------------------------------------------------------

/// An appended pending document is found by the plans that its terms match,
/// and nothing else changes.
pub proof fn append_adds_one(before: Sources<'_>, after: Sources<'_>, doc: PendingDoc, p: PlanView, tid: Tid)
    requires
        after.segments@ == before.segments@,
        after.pending@ == before.pending@.push(doc),
    ensures
        source_hits(after, p, tid) <==> source_hits(before, p, tid) || (doc.tid == tid && plan_matches(p, doc.term_set())),
{
    let n = before.pending@.len() as int;
    if source_hits(before, p, tid) {
        if exists|i: int, terms: Set<Seq<char>>| #[trigger] before.indexed(i, tid, terms) && plan_matches(p, terms) {
            let (i, terms) = choose|i: int, terms: Set<Seq<char>>| #[trigger] before.indexed(i, tid, terms) && plan_matches(p, terms);
            assert(after.indexed(i, tid, terms));
        } else {
            let (j, terms) = choose|j: int, terms: Set<Seq<char>>| #[trigger] before.waits(j, tid, terms) && plan_matches(p, terms);
            assert(after.pending@[j] == before.pending@[j]);
            assert(after.waits(j, tid, terms));
        }
    }
    if doc.tid == tid && plan_matches(p, doc.term_set()) {
        assert(after.pending@[n] == doc);
        assert(after.waits(n, tid, doc.term_set()));
    }
    if source_hits(after, p, tid) {
        if exists|i: int, terms: Set<Seq<char>>| #[trigger] after.indexed(i, tid, terms) && plan_matches(p, terms) {
            let (i, terms) = choose|i: int, terms: Set<Seq<char>>| #[trigger] after.indexed(i, tid, terms) && plan_matches(p, terms);
            assert(before.indexed(i, tid, terms));
        } else {
            let (j, terms) = choose|j: int, terms: Set<Seq<char>>| #[trigger] after.waits(j, tid, terms) && plan_matches(p, terms);
            if j < n {
                assert(after.pending@[j] == before.pending@[j]);
                assert(before.waits(j, tid, terms));
            }
        }
    }
}

/// Conditions are joined: what the scan looks for matches them all.
pub proof fn conditions_are_joined(plans: Seq<PlanView>, terms: Set<Seq<char>>)
    ensures
        all_of(plans) is None <==> plans.len() == 0,
        all_of(plans) matches Some(p) ==> (plan_matches(p, terms) <==> forall|i: int| 0 <= i < plans.len() ==> plan_matches(#[trigger] plans[i], terms)),
{
    lemma_plan_parts(plans, terms);
    if plans.len() == 1 {
        assert(plan_matches(plans[0], terms) ==> forall|i: int| 0 <= i < plans.len() ==> plan_matches(#[trigger] plans[i], terms));
    }
}

/// A scan ordered by the search that is its only condition needs no filter:
/// whatever the search finds meets the conditions.
pub proof fn ordered_search_meets_conditions(q: SearchBox, conds: Seq<Cond>, terms: Set<Seq<char>>, tier: int, i: int)
    requires
        only_order(Some(q), conds),
        0 <= tier <= 4,
        q.found(terms, tier),
        0 <= i < conds.len(),
    ensures
        plan_matches(conds[i].spec_plan(), terms),
{
    assert(conds[i] is Search);
    let s = conds[i]->Search_0;
    tiers_are_nested(q, terms, tier, 4);
    assert(s.words() == q.words() && s.typos() == q.typos());
    assert(s.found(terms, 4)) by {
        assert forall|k: int| 0 <= k < s.words().len() implies crate::search::term_found(#[trigger] s.words()[k], terms, 4, s.typos()) by {
            assert(crate::search::term_found(q.words()[k], terms, 4, q.typos()));
        }
    }
    plan_is_tier(s, terms, 4);
}

/// The dearest condition decides what rechecking costs: nothing where all are
/// exact, twice the matches where one asks for positions.
pub proof fn dearest_recheck_counts(plans: Seq<PlanView>, n: int)
    requires
        0 <= n <= plans.len(),
    ensures
        most_rechecks(plans, n) == 0 <==> forall|i: int| 0 <= i < n ==> !(#[trigger] plans[i]).inexact(),
        most_rechecks(plans, n) == 2 <==> exists|i: int| 0 <= i < n && (#[trigger] plans[i]) is Recheck,
        0 <= most_rechecks(plans, n) <= 2,
    decreases n,
{
    if n > 0 {
        dearest_recheck_counts(plans, n - 1);
        assert(plans[n - 1] is Recheck ==> plans[n - 1].inexact());
        assert(plans[n - 1].inexact() || !plans[n - 1].inexact());
    }
}

/// The documents of a sample that match are counted one by one.
pub proof fn matching_documents_are_counted(docs: Seq<PendingDoc>, p: PlanView, n: int)
    requires
        0 <= n <= docs.len(),
    ensures
        count_matching(docs, p, n) == Set::new(|j: int| 0 <= j < n && plan_matches(p, docs[j].term_set())).len(),
        Set::new(|j: int| 0 <= j < n && plan_matches(p, docs[j].term_set())).finite(),
    decreases n,
{
    let all = Set::new(|j: int| 0 <= j < n && plan_matches(p, docs[j].term_set()));
    if n == 0 {
        assert(all =~= Set::empty());
    } else {
        matching_documents_are_counted(docs, p, n - 1);
        let less = Set::new(|j: int| 0 <= j < n - 1 && plan_matches(p, docs[j].term_set()));
        if plan_matches(p, docs[n - 1].term_set()) {
            assert(all =~= less.insert(n - 1));
        } else {
            assert(all =~= less);
        }
    }
}

} // verus!
