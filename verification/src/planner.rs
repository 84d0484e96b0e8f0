//! From a query to its index plan.

use vstd::prelude::*;
use crate::error::QueryError;
use crate::plan::{plan_views, Plan, PlanView};
use crate::plan_laws::plans_are_runnable;
use crate::query::{lemma_query_view, lemma_slot_view, query_views, slot_views, Query, QueryView, Slot, SlotView};
use crate::segment::runnable;

verus! {

/// One plan as it is, several under `Or`.
pub open spec fn one_or(v: Seq<PlanView>) -> PlanView {
    if v.len() == 1 {
        v[0]
    } else {
        PlanView::Or(v)
    }
}

/// One plan as it is, several under `And`.
pub open spec fn one_and(v: Seq<PlanView>) -> PlanView {
    if v.len() == 1 {
        v[0]
    } else {
        PlanView::And(v)
    }
}

/// A plan matching every document the query matches; `None` for a negation
/// with nothing positive beside it.
pub open spec fn superset_of(q: QueryView) -> Option<PlanView>
    decreases q,
{
    match q {
        QueryView::Term(t) => Some(PlanView::Term(t)),
        QueryView::Prefix(t) => Some(PlanView::Prefix(t)),
        QueryView::Fragment(t) => Some(PlanView::Fragment(t)),
        QueryView::Fuzzy(t, k) => Some(PlanView::Fuzzy(t, k)),
        QueryView::Not(n) => None,
        QueryView::Boost(inner, w) => superset_of(*inner),
        QueryView::Or(cs) => match supersets(cs, cs.len() as int) {
            Some(v) => Some(PlanView::Or(v)),
            None => None,
        },
        QueryView::AtLeast { min, of } => match supersets(of, of.len() as int) {
            Some(v) => Some(PlanView::Or(v)),
            None => None,
        },
        QueryView::Phrase { slots, slop } => match slot_plans(slots, slots.len() as int) {
            Some(v) => Some(PlanView::And(v)),
            None => None,
        },
        QueryView::Near { left, right, gap, ordered } => match (superset_of(*left), superset_of(*right)) {
            (Some(l), Some(r)) => Some(PlanView::And(seq![l, r])),
            _ => None,
        },
        QueryView::And(cs) => match positives(cs, cs.len() as int) {
            Some(pos) => if pos.len() == 0 {
                None
            } else {
                let neg = negatives(cs, cs.len() as int);
                if neg.len() == 0 {
                    Some(one_and(pos))
                } else {
                    Some(PlanView::AndNot(Box::new(one_and(pos)), Box::new(one_or(neg))))
                }
            },
            None => None,
        },
    }
}

/// The plans of the first `n` queries.
pub open spec fn supersets(cs: Seq<QueryView>, n: int) -> Option<Seq<PlanView>>
    decreases cs, n,
{
    if n <= 0 || n > cs.len() {
        Some(Seq::empty())
    } else {
        match (supersets(cs, n - 1), superset_of(cs[n - 1])) {
            (Some(v), Some(p)) => Some(v.push(p)),
            _ => None,
        }
    }
}

/// The plans of the first `n` slots: any alternative.
pub open spec fn slot_plans(slots: Seq<SlotView>, n: int) -> Option<Seq<PlanView>>
    decreases slots, n,
{
    if n <= 0 || n > slots.len() {
        Some(Seq::empty())
    } else {
        match (slot_plans(slots, n - 1), supersets(slots[n - 1].alts, slots[n - 1].alts.len() as int)) {
            (Some(v), Some(a)) => Some(v.push(one_or(a))),
            _ => None,
        }
    }
}

/// The plans of the operands among the first `n` that are not negations.
pub open spec fn positives(cs: Seq<QueryView>, n: int) -> Option<Seq<PlanView>>
    decreases cs, n,
{
    if n <= 0 || n > cs.len() {
        Some(Seq::empty())
    } else {
        match cs[n - 1] {
            QueryView::Not(_) => positives(cs, n - 1),
            _ => match (positives(cs, n - 1), superset_of(cs[n - 1])) {
                (Some(v), Some(p)) => Some(v.push(p)),
                _ => None,
            },
        }
    }
}

/// What the index can subtract for the negations among the first `n`
/// operands.
pub open spec fn negatives(cs: Seq<QueryView>, n: int) -> Seq<PlanView>
    decreases cs, n,
{
    if n <= 0 || n > cs.len() {
        Seq::empty()
    } else {
        match cs[n - 1] {
            QueryView::Not(inner) => match subset_of(*inner) {
                Some(p) => negatives(cs, n - 1).push(p),
                None => negatives(cs, n - 1),
            },
            _ => negatives(cs, n - 1),
        }
    }
}

/// A plan matching only documents the query matches, or `None` if the index
/// can't tell any.
pub open spec fn subset_of(q: QueryView) -> Option<PlanView>
    decreases q,
{
    match q {
        QueryView::Term(t) => Some(PlanView::Term(t)),
        QueryView::Prefix(t) => Some(PlanView::Prefix(t)),
        QueryView::Fragment(t) => Some(PlanView::Fragment(t)),
        QueryView::Fuzzy(t, k) => Some(PlanView::Fuzzy(t, k)),
        QueryView::Boost(inner, w) => subset_of(*inner),
        QueryView::Or(cs) => {
            let v = known_subsets(cs, cs.len() as int);
            if v.len() == 0 {
                None
            } else {
                Some(one_or(v))
            }
        },
        QueryView::And(cs) => if has_negation(cs) {
            None
        } else {
            match all_subsets(cs, cs.len() as int) {
                Some(v) => Some(one_and(v)),
                None => None,
            }
        },
        QueryView::AtLeast { min, of } => if has_negation(of) {
            None
        } else {
            match all_subsets(of, of.len() as int) {
                Some(v) => Some(one_and(v)),
                None => None,
            }
        },
        _ => None,
    }
}

/// One of the operands is a negation.
pub open spec fn has_negation(cs: Seq<QueryView>) -> bool {
    exists|i: int| 0 <= i < cs.len() && (#[trigger] cs[i]) is Not
}

/// The plans that the index has for the first `n` queries.
pub open spec fn known_subsets(cs: Seq<QueryView>, n: int) -> Seq<PlanView>
    decreases cs, n,
{
    if n <= 0 || n > cs.len() {
        Seq::empty()
    } else {
        match subset_of(cs[n - 1]) {
            Some(p) => known_subsets(cs, n - 1).push(p),
            None => known_subsets(cs, n - 1),
        }
    }
}

/// The plans of the first `n` queries, if the index has one for each.
pub open spec fn all_subsets(cs: Seq<QueryView>, n: int) -> Option<Seq<PlanView>>
    decreases cs, n,
{
    if n <= 0 || n > cs.len() {
        Some(Seq::empty())
    } else {
        match (all_subsets(cs, n - 1), subset_of(cs[n - 1])) {
            (Some(v), Some(p)) => Some(v.push(p)),
            _ => None,
        }
    }
}

/// A conjunction with a negation somewhere inside: as a negated operand, the
/// index can't subtract it exactly.
pub open spec fn blurred(q: QueryView) -> bool
    decreases q,
{
    match q {
        QueryView::Boost(inner, w) => blurred(*inner),
        QueryView::Or(cs) => exists|i: int| 0 <= i < cs.len() && blurred(#[trigger] cs[i]),
        QueryView::And(cs) => has_negation(cs) || exists|i: int| 0 <= i < cs.len() && blurred(#[trigger] cs[i]),
        _ => false,
    }
}

/// Some negated operand can't be subtracted exactly.
pub open spec fn keeps_too_much(q: QueryView) -> bool
    decreases q,
{
    match q {
        QueryView::Boost(inner, w) => keeps_too_much(*inner),
        QueryView::Or(cs) => exists|i: int| 0 <= i < cs.len() && keeps_too_much(#[trigger] cs[i]),
        QueryView::And(cs) => exists|i: int|
            0 <= i < cs.len() && match #[trigger] cs[i] {
                QueryView::Not(inner) => blurred(*inner),
                _ => keeps_too_much(cs[i]),
            },
        _ => false,
    }
}

/// Whether the plan of a query may hold more than its matches.
pub open spec fn is_loose(q: QueryView) -> bool {
    q.positional() || keeps_too_much(q)
}

/// The index plan: exact for term-level queries; otherwise a superset, marked
/// as one to recheck. (A superset holds no such mark of its own.)
pub open spec fn plan_of(q: QueryView) -> Option<PlanView> {
    match superset_of(q) {
        Some(p) => if is_loose(q) {
            Some(PlanView::Recheck(Box::new(p)))
        } else {
            Some(p)
        },
        None => None,
    }
}

pub proof fn lemma_blurred_parts(cs: Seq<QueryView>)
    ensures
        blurred(QueryView::Or(cs)) == exists|i: int| 0 <= i < cs.len() && blurred(#[trigger] cs[i]),
        blurred(QueryView::And(cs)) == (has_negation(cs) || exists|i: int| 0 <= i < cs.len() && blurred(#[trigger] cs[i])),
        keeps_too_much(QueryView::Or(cs)) == exists|i: int| 0 <= i < cs.len() && keeps_too_much(#[trigger] cs[i]),
        keeps_too_much(QueryView::And(cs)) == exists|i: int|
            0 <= i < cs.len() && match #[trigger] cs[i] {
                QueryView::Not(inner) => blurred(*inner),
                _ => keeps_too_much(cs[i]),
            },
{
    let (a, o) = (QueryView::And(cs), QueryView::Or(cs));
    assert(a->And_0 == cs && o->Or_0 == cs);
    assert(blurred(o) == exists|i: int| 0 <= i < o->Or_0.len() && blurred(#[trigger] o->Or_0[i]));
    assert(blurred(a) == (has_negation(a->And_0) || exists|i: int| 0 <= i < a->And_0.len() && blurred(#[trigger] a->And_0[i])));
    assert(keeps_too_much(o) == exists|i: int| 0 <= i < o->Or_0.len() && keeps_too_much(#[trigger] o->Or_0[i]));
    assert(keeps_too_much(a) == exists|i: int|
        0 <= i < a->And_0.len() && match #[trigger] a->And_0[i] {
            QueryView::Not(inner) => blurred(*inner),
            _ => keeps_too_much(a->And_0[i]),
        });
}

// ---------------------------------------------------------------------------
// The planner
// ---------------------------------------------------------------------------

fn is_not(q: &Query) -> (r: bool)
    ensures
        r == (q.view() is Not),
{
    match q {
        Query::Not(_) => true,
        _ => false,
    }
}

fn any_negation(cs: &Vec<Query>) -> (r: bool)
    ensures
        r == has_negation(query_views(cs@)),
{
    let mut i: usize = 0;
    while i < cs.len()
        invariant
            i <= cs@.len(),
            forall|k: int| 0 <= k < i ==> !((#[trigger] query_views(cs@)[k]) is Not),
        decreases cs@.len() - i,
    {
        proof {
            assert(query_views(cs@)[i as int] == cs@[i as int].view());
        }
        if is_not(&cs[i]) {
            return true;
        }
        i = i + 1;
    }
    false
}

fn is_blurred(q: &Query) -> (r: bool)
    ensures
        r == blurred(q.view()),
    decreases q,
{
    proof {
        lemma_query_view(*q);
    }
    match q {
        Query::Boost(inner, _) => is_blurred(inner),
        Query::Or(cs) => {
            proof {
                lemma_blurred_parts(query_views(cs@));
            }
            any_blurred(cs)
        },
        Query::And(cs) => {
            proof {
                lemma_blurred_parts(query_views(cs@));
            }
            any_negation(cs) || any_blurred(cs)
        },
        _ => false,
    }
}

fn any_blurred(cs: &Vec<Query>) -> (r: bool)
    ensures
        r == exists|i: int| 0 <= i < query_views(cs@).len() && blurred(#[trigger] query_views(cs@)[i]),
    decreases cs,
{
    let mut i: usize = 0;
    while i < cs.len()
        invariant
            i <= cs@.len(),
            forall|k: int| 0 <= k < i ==> !blurred(#[trigger] query_views(cs@)[k]),
        decreases cs@.len() - i,
    {
        proof {
            assert(query_views(cs@)[i as int] == cs@[i as int].view());
        }
        if is_blurred(&cs[i]) {
            return true;
        }
        i = i + 1;
    }
    false
}

/// Whether some negated operand can't be subtracted exactly.
fn leaves_extra(q: &Query) -> (r: bool)
    ensures
        r == keeps_too_much(q.view()),
    decreases q,
{
    proof {
        lemma_query_view(*q);
    }
    match q {
        Query::Boost(inner, _) => leaves_extra(inner),
        Query::Or(cs) => {
            let ghost qv = query_views(cs@);
            proof {
                lemma_blurred_parts(qv);
            }
            let mut i: usize = 0;
            while i < cs.len()
                invariant
                    *q is Or,
                    q->Or_0 == *cs,
                    qv == query_views(cs@),
                    i <= cs@.len(),
                    forall|k: int| 0 <= k < i ==> !keeps_too_much(#[trigger] qv[k]),
                    keeps_too_much(q.view()) == exists|i: int| 0 <= i < qv.len() && keeps_too_much(#[trigger] qv[i]),
                decreases cs@.len() - i,
            {
                proof {
                    assert(qv[i as int] == cs@[i as int].view());
                    assert(decreases_to!(*q => q->Or_0));
                    assert(decreases_to!(*cs => cs[i as int]));
                }
                if leaves_extra(&cs[i]) {
                    return true;
                }
                i = i + 1;
            }
            false
        },
        Query::And(cs) => {
            let ghost qv = query_views(cs@);
            proof {
                lemma_blurred_parts(qv);
            }
            let mut i: usize = 0;
            while i < cs.len()
                invariant
                    *q is And,
                    q->And_0 == *cs,
                    qv == query_views(cs@),
                    i <= cs@.len(),
                    forall|k: int|
                        0 <= k < i ==> !(match #[trigger] qv[k] {
                            QueryView::Not(inner) => blurred(*inner),
                            _ => keeps_too_much(qv[k]),
                        }),
                    keeps_too_much(q.view()) == exists|i: int|
                        0 <= i < qv.len() && match #[trigger] qv[i] {
                            QueryView::Not(inner) => blurred(*inner),
                            _ => keeps_too_much(qv[i]),
                        },
                decreases cs@.len() - i,
            {
                proof {
                    assert(qv[i as int] == cs@[i as int].view());
                    assert(decreases_to!(*q => q->And_0));
                    assert(decreases_to!(*cs => cs[i as int]));
                }
                let extra: bool = match &cs[i] {
                    Query::Not(inner) => is_blurred(inner),
                    _ => leaves_extra(&cs[i]),
                };
                if extra {
                    return true;
                }
                i = i + 1;
            }
            false
        },
        _ => false,
    }
}

fn collapse_or(v: Vec<Plan>) -> (r: Plan)
    ensures
        r.view() == one_or(plan_views(v@)),
{
    let mut list: Vec<Plan> = v;
    let n: usize = list.len();
    if n == 1 {
        let last: Option<Plan> = list.pop();
        match last {
            Some(p) => {
                assert(plan_views(v@)[0] == p.view());
                return p;
            },
            None => {},
        }
    }
    let r: Plan = Plan::Or(list);
    proof {
        crate::plan::lemma_plan_view(r);
    }
    r
}

fn collapse_and(v: Vec<Plan>) -> (r: Plan)
    ensures
        r.view() == one_and(plan_views(v@)),
{
    let mut list: Vec<Plan> = v;
    let n: usize = list.len();
    if n == 1 {
        let last: Option<Plan> = list.pop();
        match last {
            Some(p) => {
                assert(plan_views(v@)[0] == p.view());
                return p;
            },
            None => {},
        }
    }
    let r: Plan = Plan::And(list);
    proof {
        crate::plan::lemma_plan_view(r);
    }
    r
}

/// The views of a list with one more plan.
proof fn lemma_views_push(v: Seq<Plan>, p: Plan)
    ensures
        plan_views(v.push(p)) == plan_views(v).push(p.view()),
{
    assert(plan_views(v.push(p)) =~= plan_views(v).push(p.view()));
}

impl Plan {
    /// The index plan: exact for term-level queries; otherwise a superset
    /// (phrases and proximity need their terms; `AT LEAST` needs any item),
    /// wrapped in [`Plan::Recheck`].
    pub fn from_query(q: &Query) -> (r: Result<Plan, QueryError>)
        ensures
            match r {
                Ok(p) => plan_of(q.view()) == Some(p.view()) && (q.view().valid() ==> runnable(p.view())),
                Err(e) => plan_of(q.view()) is None && e == QueryError::UnboundedNegation,
            },
    {
        proof {
            if q.view().valid() && plan_of(q.view()) is Some {
                plans_are_runnable(q.view(), plan_of(q.view())->0);
            }
        }
        match Plan::superset(q) {
            Some(p) => if q.is_positional() || leaves_extra(q) {
                Ok(Plan::Recheck(Box::new(p)))
            } else {
                Ok(p)
            },
            None => Err(QueryError::UnboundedNegation),
        }
    }

    /// A plan matching every document `q` matches.
    fn superset(q: &Query) -> (r: Option<Plan>)
        ensures
            match r {
                Some(p) => superset_of(q.view()) == Some(p.view()),
                None => superset_of(q.view()) is None,
            },
        decreases q,
    {
        proof {
            lemma_query_view(*q);
        }
        match q {
            Query::Term(t) => Some(Plan::Term(t.clone())),
            Query::Prefix(t) => Some(Plan::Prefix(t.clone())),
            Query::Fragment(t) => Some(Plan::Fragment(t.clone())),
            Query::Fuzzy(t, k) => Some(Plan::Fuzzy(t.clone(), *k)),
            Query::Not(_) => None,
            Query::Boost(inner, _) => Plan::superset(inner),
            Query::Or(cs) => match Plan::superset_each(cs) {
                Some(v) => {
                    let r: Plan = Plan::Or(v);
                    proof {
                        crate::plan::lemma_plan_view(r);
                    }
                    Some(r)
                },
                None => None,
            },
            Query::AtLeast { min: _, of } => match Plan::superset_each(of) {
                Some(v) => {
                    let r: Plan = Plan::Or(v);
                    proof {
                        crate::plan::lemma_plan_view(r);
                    }
                    Some(r)
                },
                None => None,
            },
            Query::Phrase { slots, slop: _ } => {
                let ghost sv = slot_views(slots@);
                let mut per_slot: Vec<Plan> = Vec::new();
                let mut i: usize = 0;
                proof {
                    assert(plan_views(per_slot@) =~= Seq::empty());
                }
                while i < slots.len()
                    invariant
                        *q is Phrase,
                        q->slots == *slots,
                        q.view() == (QueryView::Phrase { slots: sv, slop: q->slop as int }),
                        sv == slot_views(slots@),
                        i <= slots@.len(),
                        slot_plans(sv, i as int) == Some(plan_views(per_slot@)),
                    decreases slots@.len() - i,
                {
                    let s: &Slot = &slots[i];
                    proof {
                        assert(decreases_to!(*q => q->slots));
                        assert(decreases_to!(*slots => slots[i as int]));
                        assert(decreases_to!(slots[i as int] => s.alts));
                        lemma_slot_view(*s);
                        assert(sv[i as int] == s.view());
                    }
                    match Plan::superset_each(&s.alts) {
                        Some(alts) => {
                            let p: Plan = collapse_or(alts);
                            let ghost was = per_slot@;
                            per_slot.push(p);
                            proof {
                                lemma_views_push(was, p);
                            }
                        },
                        None => {
                            proof {
                                lemma_slots_fail(sv, i + 1, sv.len() as int);
                            }
                            return None;
                        },
                    }
                    i = i + 1;
                }
                let r: Plan = Plan::And(per_slot);
                proof {
                    crate::plan::lemma_plan_view(r);
                }
                Some(r)
            },
            Query::Near { left, right, gap: _, ordered: _ } => match (Plan::superset(left), Plan::superset(right)) {
                (Some(l), Some(r)) => {
                    let mut v: Vec<Plan> = Vec::new();
                    let ghost (lv, rv) = (l.view(), r.view());
                    v.push(l);
                    v.push(r);
                    let p: Plan = Plan::And(v);
                    proof {
                        crate::plan::lemma_plan_view(p);
                        assert(plan_views(v@) =~= seq![lv, rv]);
                    }
                    Some(p)
                },
                _ => None,
            },
            Query::And(cs) => {
                let ghost qv = query_views(cs@);
                let mut pos: Vec<Plan> = Vec::new();
                let mut neg: Vec<Plan> = Vec::new();
                let mut i: usize = 0;
                proof {
                    assert(plan_views(pos@) =~= Seq::empty());
                    assert(plan_views(neg@) =~= Seq::empty());
                }
                while i < cs.len()
                    invariant
                        *q is And,
                        q->And_0 == *cs,
                        q.view() == QueryView::And(qv),
                        qv == query_views(cs@),
                        i <= cs@.len(),
                        positives(qv, i as int) == Some(plan_views(pos@)),
                        negatives(qv, i as int) == plan_views(neg@),
                    decreases cs@.len() - i,
                {
                    let c: &Query = &cs[i];
                    proof {
                        assert(qv[i as int] == c.view());
                        assert(decreases_to!(*q => q->And_0));
                        assert(decreases_to!(*cs => cs[i as int]));
                    }
                    let ghost (p0, n0) = (pos@, neg@);
                    match c {
                        Query::Not(inner) => {
                            proof {
                                assert(decreases_to!(*c => *inner));
                            }
                            match Plan::subset(inner) {
                                Some(p) => {
                                    neg.push(p);
                                    proof {
                                        lemma_views_push(n0, p);
                                    }
                                },
                                None => {},
                            }
                        },
                        _ => match Plan::superset(c) {
                            Some(p) => {
                                pos.push(p);
                                proof {
                                    lemma_views_push(p0, p);
                                }
                            },
                            None => {
                                proof {
                                    lemma_positives_fail(qv, i + 1, qv.len() as int);
                                }
                                return None;
                            },
                        },
                    }
                    i = i + 1;
                }
                if pos.len() == 0 {
                    return None;
                }
                let p: Plan = collapse_and(pos);
                if neg.len() == 0 {
                    Some(p)
                } else {
                    Some(Plan::AndNot(Box::new(p), Box::new(collapse_or(neg))))
                }
            },
        }
    }

    fn superset_each(cs: &Vec<Query>) -> (r: Option<Vec<Plan>>)
        ensures
            match r {
                Some(v) => supersets(query_views(cs@), cs@.len() as int) == Some(plan_views(v@)),
                None => supersets(query_views(cs@), cs@.len() as int) is None,
            },
        decreases cs,
    {
        let ghost qv = query_views(cs@);
        let mut out: Vec<Plan> = Vec::new();
        let mut i: usize = 0;
        proof {
            assert(plan_views(out@) =~= Seq::empty());
        }
        while i < cs.len()
            invariant
                qv == query_views(cs@),
                i <= cs@.len(),
                supersets(qv, i as int) == Some(plan_views(out@)),
            decreases cs@.len() - i,
        {
            proof {
                assert(qv[i as int] == cs@[i as int].view());
            }
            match Plan::superset(&cs[i]) {
                Some(p) => {
                    let ghost was = out@;
                    out.push(p);
                    proof {
                        lemma_views_push(was, p);
                    }
                },
                None => {
                    proof {
                        lemma_supersets_fail(qv, i + 1, qv.len() as int);
                    }
                    return None;
                },
            }
            i = i + 1;
        }
        Some(out)
    }

    /// A plan matching only documents `q` matches (for negations), or
    /// `None` if the index can't tell any (phrases, proximity).
    fn subset(q: &Query) -> (r: Option<Plan>)
        ensures
            match r {
                Some(p) => subset_of(q.view()) == Some(p.view()),
                None => subset_of(q.view()) is None,
            },
        decreases q,
    {
        proof {
            lemma_query_view(*q);
        }
        match q {
            Query::Term(t) => Some(Plan::Term(t.clone())),
            Query::Prefix(t) => Some(Plan::Prefix(t.clone())),
            Query::Fragment(t) => Some(Plan::Fragment(t.clone())),
            Query::Fuzzy(t, k) => Some(Plan::Fuzzy(t.clone(), *k)),
            Query::Phrase { .. } | Query::Near { .. } | Query::Not(_) => None,
            Query::Boost(inner, _) => Plan::subset(inner),
            Query::Or(cs) => {
                let ghost qv = query_views(cs@);
                let mut v: Vec<Plan> = Vec::new();
                let mut i: usize = 0;
                proof {
                    assert(plan_views(v@) =~= Seq::empty());
                }
                while i < cs.len()
                    invariant
                        *q is Or,
                        q->Or_0 == *cs,
                        qv == query_views(cs@),
                        i <= cs@.len(),
                        known_subsets(qv, i as int) == plan_views(v@),
                    decreases cs@.len() - i,
                {
                    proof {
                        assert(qv[i as int] == cs@[i as int].view());
                        assert(decreases_to!(*q => q->Or_0));
                        assert(decreases_to!(*cs => cs[i as int]));
                    }
                    match Plan::subset(&cs[i]) {
                        Some(p) => {
                            let ghost was = v@;
                            v.push(p);
                            proof {
                                lemma_views_push(was, p);
                            }
                        },
                        None => {},
                    }
                    i = i + 1;
                }
                if v.len() == 0 {
                    None
                } else {
                    Some(collapse_or(v))
                }
            },
            Query::And(cs) => {
                if any_negation(cs) {
                    return None;
                }
                match Plan::subset_each(cs) {
                    Some(v) => Some(collapse_and(v)),
                    None => None,
                }
            },
            Query::AtLeast { min: _, of } => {
                if any_negation(of) {
                    return None;
                }
                match Plan::subset_each(of) {
                    Some(v) => Some(collapse_and(v)),
                    None => None,
                }
            },
        }
    }

    fn subset_each(cs: &Vec<Query>) -> (r: Option<Vec<Plan>>)
        ensures
            match r {
                Some(v) => all_subsets(query_views(cs@), cs@.len() as int) == Some(plan_views(v@)),
                None => all_subsets(query_views(cs@), cs@.len() as int) is None,
            },
        decreases cs,
    {
        let ghost qv = query_views(cs@);
        let mut out: Vec<Plan> = Vec::new();
        let mut i: usize = 0;
        proof {
            assert(plan_views(out@) =~= Seq::empty());
        }
        while i < cs.len()
            invariant
                qv == query_views(cs@),
                i <= cs@.len(),
                all_subsets(qv, i as int) == Some(plan_views(out@)),
            decreases cs@.len() - i,
        {
            proof {
                assert(qv[i as int] == cs@[i as int].view());
            }
            match Plan::subset(&cs[i]) {
                Some(p) => {
                    let ghost was = out@;
                    out.push(p);
                    proof {
                        lemma_views_push(was, p);
                    }
                },
                None => {
                    proof {
                        lemma_subsets_fail(qv, i + 1, qv.len() as int);
                    }
                    return None;
                },
            }
            i = i + 1;
        }
        Some(out)
    }
}

proof fn lemma_supersets_fail(cs: Seq<QueryView>, n: int, m: int)
    requires
        0 < n <= m <= cs.len(),
        supersets(cs, n) is None,
    ensures
        supersets(cs, m) is None,
    decreases m - n,
{
    if n < m {
        lemma_supersets_fail(cs, n, m - 1);
    }
}

proof fn lemma_subsets_fail(cs: Seq<QueryView>, n: int, m: int)
    requires
        0 < n <= m <= cs.len(),
        all_subsets(cs, n) is None,
    ensures
        all_subsets(cs, m) is None,
    decreases m - n,
{
    if n < m {
        lemma_subsets_fail(cs, n, m - 1);
    }
}

proof fn lemma_slots_fail(slots: Seq<SlotView>, n: int, m: int)
    requires
        0 < n <= m <= slots.len(),
        slot_plans(slots, n) is None,
    ensures
        slot_plans(slots, m) is None,
    decreases m - n,
{
    if n < m {
        lemma_slots_fail(slots, n, m - 1);
    }
}

proof fn lemma_positives_fail(cs: Seq<QueryView>, n: int, m: int)
    requires
        0 < n <= m <= cs.len(),
        positives(cs, n) is None,
    ensures
        positives(cs, m) is None,
    decreases m - n,
{
    if n < m {
        lemma_positives_fail(cs, n, m - 1);
    }
}

} // verus!
