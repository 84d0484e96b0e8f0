//! A plan finds every match of its query, and nothing else where it says so.

use vstd::prelude::*;
use crate::interval::{forward, lemma_minimal_inside, near_windows, then_windows, within};
use crate::plan::{lemma_plan_parts, plan_accepts, plan_matches, some_accepted, PlanView};
use crate::planner::{
    all_subsets, blurred, keeps_too_much, known_subsets, lemma_blurred_parts, negatives, one_and, one_or, plan_of,
    positives, slot_plans, subset_of, superset_of, supersets,
};
use crate::query::{
    accepts, all_windows, denied, doc_of, lemma_parts, operands_each, points, satisfied, slot_offsets, slot_set, slot_sets, spans, spans_each, stands,
    union_all, Doc, QueryView, SlotView,
};
use crate::segment::{lemma_runnable_parts, runnable};
use crate::tokenize::{terms_of, tokens_of_words, words_from};
use crate::span::{doc_terms, lemma_count_all, lemma_forward};
use crate::windows::{cover_windows, is_placing, phrase_windows, reaches};

verus! {

/// Word positions are natural numbers.
pub open spec fn placed(doc: Doc) -> bool {
    forall|k: int| 0 <= k < doc.len() ==> 0 <= (#[trigger] doc[k]).1
}

// ---------------------------------------------------------------------------
// When a document matches
// ---------------------------------------------------------------------------

/// A term or pattern is satisfied by a document that has a term it accepts.
proof fn lemma_leaf(q: QueryView, doc: Doc)
    requires
        q.is_leaf(),
    ensures
        satisfied(q, doc) <==> exists|t: Seq<char>| #[trigger] doc_terms(doc).contains(t) && accepts(q, t),
{
    if satisfied(q, doc) {
        let x = choose|x: (int, int)| spans(q, doc).contains(x);
        assert(points(q, doc).contains(x));
        let i = choose|i: int| 0 <= i < doc.len() && (#[trigger] doc[i]).1 == x.0 && accepts(q, doc[i].0);
        assert(doc_terms(doc).contains(doc[i].0));
    }
    if exists|t: Seq<char>| #[trigger] doc_terms(doc).contains(t) && accepts(q, t) {
        let t = choose|t: Seq<char>| #[trigger] doc_terms(doc).contains(t) && accepts(q, t);
        let i = choose|i: int| 0 <= i < doc.len() && (#[trigger] doc[i]).0 == t;
        let x = (doc[i].1, doc[i].1);
        assert(stands(q, doc, x.0));
        assert(spans(q, doc).contains(x));
    }
}

proof fn lemma_leaf_plan(q: QueryView, p: PlanView, doc: Doc)
    requires
        q.is_leaf(),
        superset_of(q) == Some(p),
    ensures
        satisfied(q, doc) <==> plan_matches(p, doc_terms(doc)),
        subset_of(q) == Some(p),
{
    lemma_leaf(q, doc);
    assert forall|t: Seq<char>| accepts(q, t) == plan_accepts(p, t) by {}
    assert(plan_matches(p, doc_terms(doc)) == some_accepted(p, doc_terms(doc)));
    if satisfied(q, doc) {
        let t = choose|t: Seq<char>| #[trigger] doc_terms(doc).contains(t) && accepts(q, t);
        assert(doc_terms(doc).contains(t) && plan_accepts(p, t));
    }
    if some_accepted(p, doc_terms(doc)) {
        let t = choose|t: Seq<char>| #[trigger] doc_terms(doc).contains(t) && plan_accepts(p, t);
        assert(doc_terms(doc).contains(t) && accepts(q, t));
    }
}

/// `OR` is satisfied by a document that satisfies an operand.
pub proof fn or_satisfied(cs: Seq<QueryView>, doc: Doc)
    requires
        placed(doc),
        QueryView::Or(cs).valid(),
    ensures
        satisfied(QueryView::Or(cs), doc) <==> exists|i: int| 0 <= i < cs.len() && satisfied(#[trigger] cs[i], doc),
{
    let q = QueryView::Or(cs);
    let each = spans_each(cs, doc);
    let u = union_all(each);
    lemma_parts(cs);
    if satisfied(q, doc) {
        let x = choose|x: (int, int)| spans(q, doc).contains(x);
        assert(u.contains(x));
        let i = choose|i: int| 0 <= i < each.len() && (#[trigger] each[i]).contains(x);
        assert(spans(cs[i], doc).contains(x));
        assert(satisfied(cs[i], doc));
    }
    if exists|i: int| 0 <= i < cs.len() && satisfied(#[trigger] cs[i], doc) {
        let i = choose|i: int| 0 <= i < cs.len() && satisfied(#[trigger] cs[i], doc);
        let x = choose|x: (int, int)| spans(cs[i], doc).contains(x);
        assert(each[i].contains(x));
        assert(u.contains(x));
        assert(forward(u)) by {
            assert forall|y: (int, int)| #[trigger] u.contains(y) implies 0 <= y.0 <= y.1 by {
                let k = choose|k: int| 0 <= k < each.len() && (#[trigger] each[k]).contains(y);
                assert(cs[k].valid());
                lemma_forward(cs[k], doc);
                assert(spans(cs[k], doc).contains(y));
            }
        }
        let m = lemma_minimal_inside(u, x);
        assert(spans(q, doc).contains(m));
    }
}

pub open spec fn nonempty(s: Set<(int, int)>) -> bool {
    exists|x: (int, int)| #[trigger] s.contains(x)
}

/// A window wide enough for an interval of each of the first `n` sets that
/// count.
pub proof fn lemma_wide(ls: Seq<Set<(int, int)>>, on: spec_fn(int) -> bool, n: int) -> (m: int)
    requires
        0 <= n <= ls.len(),
        forall|i: int| 0 <= i < n && on(i) ==> nonempty(#[trigger] ls[i]),
        forall|i: int, x: (int, int)| 0 <= i < n && on(i) && #[trigger] ls[i].contains(x) ==> 0 <= x.0 <= x.1,
    ensures
        0 <= m,
        forall|i: int| 0 <= i < n && on(i) ==> reaches(#[trigger] ls[i], (0, m)),
    decreases n,
{
    if n == 0 {
        0
    } else {
        let m0 = lemma_wide(ls, on, n - 1);
        let m = if on(n - 1) {
            assert(nonempty(ls[n - 1]));
            let x = choose|x: (int, int)| #[trigger] ls[n - 1].contains(x);
            if x.1 > m0 {
                x.1
            } else {
                m0
            }
        } else {
            m0
        };
        assert forall|i: int| 0 <= i < n && on(i) implies reaches(#[trigger] ls[i], (0, m)) by {
            if i < n - 1 {
                assert(reaches(ls[i], (0, m0)));
                let y = choose|y: (int, int)| #[trigger] ls[i].contains(y) && within((0, m0), y);
                assert(ls[i].contains(y) && within((0, m), y));
            } else {
                assert(nonempty(ls[n - 1]));
                let x = choose|x: (int, int)| #[trigger] ls[n - 1].contains(x);
                assert(ls[i].contains(x) && within((0, m), x));
            }
        }
        m
    }
}

/// `AND` is satisfied by a document that satisfies every positive operand, of
/// which there is one, and nothing that is negated.
pub proof fn and_satisfied(cs: Seq<QueryView>, doc: Doc)
    requires
        placed(doc),
        QueryView::And(cs).valid(),
    ensures
        satisfied(QueryView::And(cs), doc) <==> {
            &&& exists|i: int| 0 <= i < cs.len() && !((#[trigger] cs[i]) is Not)
            &&& forall|i: int|
                0 <= i < cs.len() ==> match #[trigger] cs[i] {
                    QueryView::Not(inner) => !satisfied(*inner, doc),
                    _ => satisfied(cs[i], doc),
                }
        },
{
    let q = QueryView::And(cs);
    let each = operands_each(cs, doc);
    let w = all_windows(cs, each);
    lemma_parts(cs);
    if satisfied(q, doc) {
        let x = choose|x: (int, int)| spans(q, doc).contains(x);
        assert(!denied(cs, each));
        assert(w.contains(x));
        assert forall|i: int| 0 <= i < cs.len() implies match #[trigger] cs[i] {
            QueryView::Not(inner) => !satisfied(*inner, doc),
            _ => satisfied(cs[i], doc),
        } by {
            match cs[i] {
                QueryView::Not(inner) => {
                    if satisfied(*inner, doc) {
                        let y = choose|y: (int, int)| spans(*inner, doc).contains(y);
                        assert(cs[i] is Not && each[i].contains(y));
                    }
                },
                _ => {
                    assert(reaches(each[i], x));
                    let y = choose|y: (int, int)| #[trigger] each[i].contains(y) && within(x, y);
                    assert(spans(cs[i], doc).contains(y));
                },
            }
        }
    }
    if (exists|i: int| 0 <= i < cs.len() && !((#[trigger] cs[i]) is Not)) && (forall|i: int|
        0 <= i < cs.len() ==> match #[trigger] cs[i] {
            QueryView::Not(inner) => !satisfied(*inner, doc),
            _ => satisfied(cs[i], doc),
        }) {
        assert(!denied(cs, each)) by {
            if denied(cs, each) {
                let (i, y) = choose|i: int, y: (int, int)| 0 <= i < cs.len() && (cs[i] is Not) && #[trigger] each[i].contains(y);
                assert(cs[i] is Not);
                assert(spans(*cs[i]->Not_0, doc).contains(y));
            }
        }
        let on = |i: int| !(cs[i] is Not);
        assert forall|i: int| 0 <= i < cs.len() && on(i) implies nonempty(#[trigger] each[i]) by {
            assert(satisfied(cs[i], doc));
            let x = choose|x: (int, int)| spans(cs[i], doc).contains(x);
            assert(each[i].contains(x));
        }
        assert forall|i: int, x: (int, int)| 0 <= i < cs.len() && on(i) && #[trigger] each[i].contains(x) implies 0 <= x.0 <= x.1 by {
            assert(cs[i].valid());
            lemma_forward(cs[i], doc);
        }
        let m = lemma_wide(each, on, cs.len() as int);
        assert forall|i: int| 0 <= i < cs.len() && !((#[trigger] cs[i]) is Not) implies reaches(each[i], (0, m)) by {
            assert(on(i));
        }
        assert(w.contains((0, m)));
        assert(forward(w));
        let x = lemma_minimal_inside(w, (0, m));
        assert(spans(q, doc).contains(x));
    }
}

/// A document that satisfies every item satisfies `AT LEAST`.
proof fn lemma_at_least(min: int, of: Seq<QueryView>, doc: Doc)
    requires
        placed(doc),
        (QueryView::AtLeast { min, of }).valid(),
        forall|i: int| 0 <= i < of.len() ==> satisfied(#[trigger] of[i], doc),
    ensures
        satisfied(QueryView::AtLeast { min, of }, doc),
{
    let q = QueryView::AtLeast { min, of };
    let each = spans_each(of, doc);
    let w = cover_windows(each, min);
    let on = |i: int| true;
    assert forall|i: int| 0 <= i < of.len() && on(i) implies nonempty(#[trigger] each[i]) by {
        assert(satisfied(of[i], doc));
        let x = choose|x: (int, int)| spans(of[i], doc).contains(x);
        assert(each[i].contains(x));
    }
    assert forall|i: int, x: (int, int)| 0 <= i < of.len() && on(i) && #[trigger] each[i].contains(x) implies 0 <= x.0 <= x.1 by {
        assert(of[i].valid());
        lemma_forward(of[i], doc);
    }
    let m = lemma_wide(each, on, of.len() as int);
    assert forall|k: int| 0 <= k < each.len() implies reaches(#[trigger] each[k], (0, m)) by {
        assert(on(k));
    }
    lemma_count_all(each, each.len() as int, (0, m));
    assert(w.contains((0, m)));
    assert(forward(w));
    let x = lemma_minimal_inside(w, (0, m));
    assert(spans(q, doc).contains(x));
}

/// A document that satisfies `AT LEAST` satisfies an item.
proof fn lemma_at_least_any(min: int, of: Seq<QueryView>, doc: Doc) -> (i: int)
    requires
        satisfied(QueryView::AtLeast { min, of }, doc),
    ensures
        0 <= i < of.len(),
        satisfied(of[i], doc),
{
    let each = spans_each(of, doc);
    let x = choose|x: (int, int)| spans(QueryView::AtLeast { min, of }, doc).contains(x);
    assert(cover_windows(each, min).contains(x));
    let i = crate::windows::lemma_count_pos(each, each.len() as int, x);
    let y = choose|y: (int, int)| #[trigger] each[i].contains(y) && within(x, y);
    assert(spans(of[i], doc).contains(y));
    i
}

// ---------------------------------------------------------------------------
// Supersets and subsets
// ---------------------------------------------------------------------------

proof fn lemma_supersets_at(cs: Seq<QueryView>, n: int, i: int)
    requires
        0 <= i < n <= cs.len(),
        supersets(cs, n) is Some,
    ensures
        supersets(cs, n)->0.len() == n,
        superset_of(cs[i]) == Some(supersets(cs, n)->0[i]),
    decreases n,
{
    if n > 1 {
        lemma_supersets_at(cs, n - 1, if i < n - 1 { i } else { 0 });
    } else {
        assert(supersets(cs, 0) == Some(Seq::<PlanView>::empty()));
    }
}

proof fn lemma_one(v: Seq<PlanView>, terms: Set<Seq<char>>)
    requires
        v.len() >= 1,
    ensures
        plan_matches(one_or(v), terms) <==> exists|i: int| 0 <= i < v.len() && plan_matches(#[trigger] v[i], terms),
        plan_matches(one_and(v), terms) <==> forall|i: int| 0 <= i < v.len() ==> plan_matches(#[trigger] v[i], terms),
{
    lemma_plan_parts(v, terms);
    if v.len() == 1 {
        assert(plan_matches(v[0], terms) ==> 0 <= 0 < v.len() && plan_matches(v[0], terms));
    }
}

/// Each plan of the positive operands belongs to one of them.
proof fn lemma_positive_owner(cs: Seq<QueryView>, n: int, k: int) -> (i: int)
    requires
        0 <= n <= cs.len(),
        positives(cs, n) is Some,
        0 <= k < positives(cs, n)->0.len(),
    ensures
        0 <= i < n,
        !(cs[i] is Not),
        superset_of(cs[i]) == Some(positives(cs, n)->0[k]),
    decreases n,
{
    if n <= 0 {
        0
    } else if cs[n - 1] is Not {
        lemma_positive_owner(cs, n - 1, k)
    } else if k < positives(cs, n - 1)->0.len() {
        lemma_positive_owner(cs, n - 1, k)
    } else {
        n - 1
    }
}

/// Each positive operand has its plan.
proof fn lemma_positive_plan(cs: Seq<QueryView>, n: int, i: int) -> (k: int)
    requires
        0 <= i < n <= cs.len(),
        positives(cs, n) is Some,
        !(cs[i] is Not),
    ensures
        0 <= k < positives(cs, n)->0.len(),
        superset_of(cs[i]) == Some(positives(cs, n)->0[k]),
    decreases n,
{
    if i == n - 1 {
        positives(cs, n - 1)->0.len() as int
    } else {
        lemma_positive_plan(cs, n - 1, i)
    }
}

/// Each subtracted plan belongs to a negated operand.
proof fn lemma_negative_owner(cs: Seq<QueryView>, n: int, k: int) -> (i: int)
    requires
        0 <= n <= cs.len(),
        0 <= k < negatives(cs, n).len(),
    ensures
        0 <= i < n,
        cs[i] is Not,
        subset_of(*cs[i]->Not_0) == Some(negatives(cs, n)[k]),
    decreases n,
{
    if n <= 0 {
        0
    } else {
        match cs[n - 1] {
            QueryView::Not(inner) => match subset_of(*inner) {
                Some(p) => if k < negatives(cs, n - 1).len() {
                    lemma_negative_owner(cs, n - 1, k)
                } else {
                    n - 1
                },
                None => lemma_negative_owner(cs, n - 1, k),
            },
            _ => lemma_negative_owner(cs, n - 1, k),
        }
    }
}

/// Each negated operand that the index can subtract is subtracted.
proof fn lemma_negative_plan(cs: Seq<QueryView>, n: int, i: int) -> (k: int)
    requires
        0 <= i < n <= cs.len(),
        cs[i] is Not,
        subset_of(*cs[i]->Not_0) is Some,
    ensures
        0 <= k < negatives(cs, n).len(),
        subset_of(*cs[i]->Not_0) == Some(negatives(cs, n)[k]),
    decreases n,
{
    if i == n - 1 {
        negatives(cs, n - 1).len() as int
    } else {
        lemma_negative_plan(cs, n - 1, i)
    }
}

proof fn lemma_known_owner(cs: Seq<QueryView>, n: int, k: int) -> (i: int)
    requires
        0 <= n <= cs.len(),
        0 <= k < known_subsets(cs, n).len(),
    ensures
        0 <= i < n,
        subset_of(cs[i]) == Some(known_subsets(cs, n)[k]),
    decreases n,
{
    if n <= 0 {
        0
    } else {
        match subset_of(cs[n - 1]) {
            Some(p) => if k < known_subsets(cs, n - 1).len() {
                lemma_known_owner(cs, n - 1, k)
            } else {
                n - 1
            },
            None => lemma_known_owner(cs, n - 1, k),
        }
    }
}

proof fn lemma_known_plan(cs: Seq<QueryView>, n: int, i: int) -> (k: int)
    requires
        0 <= i < n <= cs.len(),
        subset_of(cs[i]) is Some,
    ensures
        0 <= k < known_subsets(cs, n).len(),
        subset_of(cs[i]) == Some(known_subsets(cs, n)[k]),
    decreases n,
{
    if i == n - 1 {
        known_subsets(cs, n - 1).len() as int
    } else {
        lemma_known_plan(cs, n - 1, i)
    }
}

proof fn lemma_subsets_at(cs: Seq<QueryView>, n: int, i: int)
    requires
        0 <= i < n <= cs.len(),
        all_subsets(cs, n) is Some,
    ensures
        all_subsets(cs, n)->0.len() == n,
        subset_of(cs[i]) == Some(all_subsets(cs, n)->0[i]),
    decreases n,
{
    if n > 1 {
        lemma_subsets_at(cs, n - 1, if i < n - 1 { i } else { 0 });
    } else {
        assert(all_subsets(cs, 0) == Some(Seq::<PlanView>::empty()));
    }
}

proof fn lemma_all_subsets(cs: Seq<QueryView>, n: int)
    requires
        0 <= n <= cs.len(),
        forall|i: int| 0 <= i < n ==> subset_of(#[trigger] cs[i]) is Some,
    ensures
        all_subsets(cs, n) is Some,
    decreases n,
{
    if n > 0 {
        lemma_all_subsets(cs, n - 1);
        assert(subset_of(cs[n - 1]) is Some);
    }
}

proof fn lemma_slot_plan_at(slots: Seq<SlotView>, n: int, i: int)
    requires
        0 <= i < n <= slots.len(),
        slot_plans(slots, n) is Some,
    ensures
        slot_plans(slots, n)->0.len() == n,
        supersets(slots[i].alts, slots[i].alts.len() as int) is Some,
        slot_plans(slots, n)->0[i] == one_or(supersets(slots[i].alts, slots[i].alts.len() as int)->0),
    decreases n,
{
    if n > 1 {
        lemma_slot_plan_at(slots, n - 1, if i < n - 1 { i } else { 0 });
    } else {
        assert(slot_plans(slots, 0) == Some(Seq::<PlanView>::empty()));
    }
}

/// A document that satisfies a proximity item satisfies both sides.
proof fn lemma_near(left: QueryView, right: QueryView, gap: int, ordered: bool, doc: Doc)
    requires
        satisfied(QueryView::Near { left: Box::new(left), right: Box::new(right), gap, ordered }, doc),
    ensures
        satisfied(left, doc),
        satisfied(right, doc),
{
    let q = QueryView::Near { left: Box::new(left), right: Box::new(right), gap, ordered };
    let x = choose|x: (int, int)| spans(q, doc).contains(x);
    let (l, r) = (spans(left, doc), spans(right, doc));
    assert(near_windows(l, r, gap, ordered).contains(x));
    if then_windows(l, r, gap).contains(x) {
        let (a, b) = choose|a: (int, int), b: (int, int)|
            #[trigger] l.contains(a) && #[trigger] r.contains(b) && a.1 < b.0 && b.0 - a.1 - 1 <= gap && x == (a.0, b.1);
        assert(l.contains(a) && r.contains(b));
    } else {
        let (a, b) = choose|a: (int, int), b: (int, int)|
            #[trigger] r.contains(a) && #[trigger] l.contains(b) && a.1 < b.0 && b.0 - a.1 - 1 <= gap && x == (a.0, b.1);
        assert(r.contains(a) && l.contains(b));
    }
}

/// A document that satisfies a phrase has a term for each slot.
proof fn lemma_phrase(slots: Seq<SlotView>, slop: int, doc: Doc)
    requires
        slots.len() >= 1,
        satisfied(QueryView::Phrase { slots, slop }, doc),
        slot_plans(slots, slots.len() as int) is Some,
    ensures
        plan_matches(PlanView::And(slot_plans(slots, slots.len() as int)->0), doc_terms(doc)),
{
    let terms = doc_terms(doc);
    let q = QueryView::Phrase { slots, slop };
    let n = slots.len() as int;
    let v = slot_plans(slots, n)->0;
    let x = choose|x: (int, int)| spans(q, doc).contains(x);
    let sets = slot_sets(slots, doc);
    let offs = slot_offsets(slots);
    assert(phrase_windows(sets, offs, slop).contains(x));
    let pl = choose|pl: Seq<int>| #[trigger] is_placing(sets, offs, pl) && x == (pl[0], pl.last()) && (pl.last() - pl[0]) - (offs.last() - offs[0]) <= slop;
    lemma_slot_plan_at(slots, n, 0);
    assert forall|j: int| 0 <= j < v.len() implies plan_matches(#[trigger] v[j], terms) by {
        lemma_slot_plan_at(slots, n, j);
        assert(sets[j].contains(pl[j]));
        assert(sets[j] == slot_set(slots[j], doc));
        let alts = slots[j].alts;
        let a = choose|a: int| 0 <= a < alts.len() && stands(#[trigger] alts[a], doc, pl[j]);
        let i = choose|i: int| 0 <= i < doc.len() && (#[trigger] doc[i]).1 == pl[j] && accepts(alts[a], doc[i].0);
        let av = supersets(alts, alts.len() as int)->0;
        lemma_supersets_at(alts, alts.len() as int, a);
        assert(doc_terms(doc).contains(doc[i].0));
        lemma_leaf(alts[a], doc);
        lemma_leaf_plan(alts[a], av[a], doc);
        lemma_one(av, terms);
        assert(plan_matches(av[a], terms));
    }
    lemma_plan_parts(v, terms);
}

/// A document that satisfies a query matches its superset plan.
proof fn lemma_superset(q: QueryView, p: PlanView, doc: Doc)
    requires
        placed(doc),
        q.valid(),
        superset_of(q) == Some(p),
        satisfied(q, doc),
    ensures
        plan_matches(p, doc_terms(doc)),
    decreases q,
{
    let terms = doc_terms(doc);
    match q {
        QueryView::Boost(inner, w) => {
            assert(spans(q, doc) == spans(*inner, doc));
            lemma_superset(*inner, p, doc);
        },
        QueryView::Not(n) => {},
        QueryView::Or(cs) => {
            lemma_parts(cs);
            or_satisfied(cs, doc);
            let i = choose|i: int| 0 <= i < cs.len() && satisfied(#[trigger] cs[i], doc);
            let v = supersets(cs, cs.len() as int)->0;
            lemma_supersets_at(cs, cs.len() as int, i);
            lemma_superset(cs[i], v[i], doc);
            lemma_plan_parts(v, terms);
        },
        QueryView::AtLeast { min, of } => {
            let i = lemma_at_least_any(min, of, doc);
            let v = supersets(of, of.len() as int)->0;
            lemma_supersets_at(of, of.len() as int, i);
            lemma_superset(of[i], v[i], doc);
            lemma_plan_parts(v, terms);
        },
        QueryView::Near { left, right, gap, ordered } => {
            lemma_near(*left, *right, gap, ordered, doc);
            let (pl, pr) = (superset_of(*left)->0, superset_of(*right)->0);
            lemma_superset(*left, pl, doc);
            lemma_superset(*right, pr, doc);
            let both = seq![pl, pr];
            lemma_plan_parts(both, terms);
            assert forall|i: int| 0 <= i < both.len() implies plan_matches(#[trigger] both[i], terms) by {
                assert(i == 0 || i == 1);
            }
        },
        QueryView::Phrase { slots, slop } => {
            lemma_phrase(slots, slop, doc);
        },
        QueryView::And(cs) => {
            let n = cs.len() as int;
            lemma_parts(cs);
            and_satisfied(cs, doc);
            let pos = positives(cs, n)->0;
            let neg = negatives(cs, n);
            assert forall|k: int| 0 <= k < pos.len() implies plan_matches(#[trigger] pos[k], terms) by {
                let i = lemma_positive_owner(cs, n, k);
                assert(satisfied(cs[i], doc));
                lemma_superset(cs[i], pos[k], doc);
            }
            lemma_one(pos, terms);
            if neg.len() > 0 {
                lemma_one(neg, terms);
                assert forall|k: int| 0 <= k < neg.len() implies !plan_matches(#[trigger] neg[k], terms) by {
                    let i = lemma_negative_owner(cs, n, k);
                    assert(!satisfied(*cs[i]->Not_0, doc));
                    assert(cs[i].valid());
                    if plan_matches(neg[k], terms) {
                        lemma_subset(*cs[i]->Not_0, neg[k], doc);
                    }
                }
            }
        },
        _ => {
            lemma_leaf_plan(q, p, doc);
        },
    }
}

/// A document that matches the subset plan of a query satisfies it.
proof fn lemma_subset(q: QueryView, p: PlanView, doc: Doc)
    requires
        placed(doc),
        q.valid(),
        subset_of(q) == Some(p),
        plan_matches(p, doc_terms(doc)),
    ensures
        satisfied(q, doc),
    decreases q,
{
    let terms = doc_terms(doc);
    match q {
        QueryView::Boost(inner, w) => {
            lemma_subset(*inner, p, doc);
            assert(spans(q, doc) == spans(*inner, doc));
        },
        QueryView::Or(cs) => {
            lemma_parts(cs);
            or_satisfied(cs, doc);
            let v = known_subsets(cs, cs.len() as int);
            lemma_one(v, terms);
            let k = choose|k: int| 0 <= k < v.len() && plan_matches(#[trigger] v[k], terms);
            let i = lemma_known_owner(cs, cs.len() as int, k);
            assert(cs[i].valid());
            lemma_subset(cs[i], v[k], doc);
        },
        QueryView::And(cs) => {
            let n = cs.len() as int;
            lemma_parts(cs);
            and_satisfied(cs, doc);
            let v = all_subsets(cs, n)->0;
            lemma_subsets_at(cs, n, 0);
            lemma_one(v, terms);
            assert forall|i: int| 0 <= i < cs.len() implies match #[trigger] cs[i] {
                QueryView::Not(inner) => !satisfied(*inner, doc),
                _ => satisfied(cs[i], doc),
            } by {
                assert(!(cs[i] is Not));
                lemma_subsets_at(cs, n, i);
                assert(plan_matches(v[i], terms));
                lemma_subset(cs[i], v[i], doc);
            }
            assert(!(cs[0] is Not));
        },
        QueryView::AtLeast { min, of } => {
            let n = of.len() as int;
            let v = all_subsets(of, n)->0;
            lemma_subsets_at(of, n, 0);
            lemma_one(v, terms);
            assert forall|i: int| 0 <= i < of.len() implies satisfied(#[trigger] of[i], doc) by {
                lemma_subsets_at(of, n, i);
                assert(plan_matches(v[i], terms));
                assert(of[i].valid());
                lemma_subset(of[i], v[i], doc);
            }
            lemma_at_least(min, of, doc);
        },
        _ => {
            lemma_leaf_plan(q, p, doc);
        },
    }
}

/// What a sharp negated query matches, its subset plan matches.
proof fn lemma_subset_sharp(q: QueryView, doc: Doc)
    requires
        placed(doc),
        q.valid(),
        !q.positional(),
        !blurred(q),
        satisfied(q, doc),
    ensures
        subset_of(q) is Some,
        plan_matches(subset_of(q)->0, doc_terms(doc)),
    decreases q,
{
    let terms = doc_terms(doc);
    match q {
        QueryView::Boost(inner, w) => {
            assert(spans(q, doc) == spans(*inner, doc));
            lemma_subset_sharp(*inner, doc);
        },
        QueryView::Or(cs) => {
            lemma_parts(cs);
            lemma_blurred_parts(cs);
            or_satisfied(cs, doc);
            let i = choose|i: int| 0 <= i < cs.len() && satisfied(#[trigger] cs[i], doc);
            lemma_subset_sharp(cs[i], doc);
            let k = lemma_known_plan(cs, cs.len() as int, i);
            let v = known_subsets(cs, cs.len() as int);
            assert(plan_matches(v[k], terms));
            lemma_one(v, terms);
        },
        QueryView::And(cs) => {
            let n = cs.len() as int;
            lemma_parts(cs);
            lemma_blurred_parts(cs);
            and_satisfied(cs, doc);
            assert forall|i: int| 0 <= i < n implies subset_of(#[trigger] cs[i]) is Some by {
                assert(!(cs[i] is Not));
                assert(satisfied(cs[i], doc));
                lemma_subset_sharp(cs[i], doc);
            }
            lemma_all_subsets(cs, n);
            let v = all_subsets(cs, n)->0;
            lemma_subsets_at(cs, n, 0);
            assert forall|i: int| 0 <= i < v.len() implies plan_matches(#[trigger] v[i], terms) by {
                lemma_subsets_at(cs, n, i);
                assert(!(cs[i] is Not));
                assert(satisfied(cs[i], doc));
                lemma_subset_sharp(cs[i], doc);
            }
            lemma_one(v, terms);
        },
        QueryView::Not(n) => {
            let x = choose|x: (int, int)| spans(q, doc).contains(x);
        },
        _ => {
            let p = superset_of(q)->0;
            lemma_leaf_plan(q, p, doc);
        },
    }
}

/// A document that matches the superset plan of a sharp query satisfies it.
proof fn lemma_superset_sharp(q: QueryView, p: PlanView, doc: Doc)
    requires
        placed(doc),
        q.valid(),
        !q.positional(),
        !keeps_too_much(q),
        superset_of(q) == Some(p),
        plan_matches(p, doc_terms(doc)),
    ensures
        satisfied(q, doc),
    decreases q,
{
    let terms = doc_terms(doc);
    match q {
        QueryView::Boost(inner, w) => {
            lemma_superset_sharp(*inner, p, doc);
            assert(spans(q, doc) == spans(*inner, doc));
        },
        QueryView::Or(cs) => {
            lemma_parts(cs);
            lemma_blurred_parts(cs);
            or_satisfied(cs, doc);
            let v = supersets(cs, cs.len() as int)->0;
            if cs.len() > 0 {
                lemma_supersets_at(cs, cs.len() as int, 0);
            }
            lemma_plan_parts(v, terms);
            let i = choose|i: int| 0 <= i < v.len() && plan_matches(#[trigger] v[i], terms);
            lemma_supersets_at(cs, cs.len() as int, i);
            lemma_superset_sharp(cs[i], v[i], doc);
        },
        QueryView::And(cs) => {
            let n = cs.len() as int;
            lemma_parts(cs);
            lemma_blurred_parts(cs);
            and_satisfied(cs, doc);
            let pos = positives(cs, n)->0;
            let neg = negatives(cs, n);
            lemma_one(pos, terms);
            if neg.len() > 0 {
                lemma_one(neg, terms);
            }
            assert forall|i: int| 0 <= i < cs.len() implies match #[trigger] cs[i] {
                QueryView::Not(inner) => !satisfied(*inner, doc),
                _ => satisfied(cs[i], doc),
            } by {
                assert(cs[i].valid());
                match cs[i] {
                    QueryView::Not(inner) => {
                        if satisfied(*inner, doc) {
                            lemma_subset_sharp(*inner, doc);
                            let k = lemma_negative_plan(cs, n, i);
                            assert(plan_matches(neg[k], terms));
                        }
                    },
                    _ => {
                        let k = lemma_positive_plan(cs, n, i);
                        assert(plan_matches(pos[k], terms));
                        lemma_superset_sharp(cs[i], pos[k], doc);
                    },
                }
            }
            let i = lemma_positive_owner(cs, n, 0);
            assert(!(cs[i] is Not));
        },
        QueryView::Not(n) => {},
        _ => {
            lemma_leaf_plan(q, p, doc);
        },
    }
}

proof fn lemma_run_one(v: Seq<PlanView>)
    requires
        forall|i: int| 0 <= i < v.len() ==> runnable(#[trigger] v[i]),
    ensures
        runnable(one_or(v)),
        runnable(PlanView::Or(v)),
        v.len() >= 1 ==> runnable(one_and(v)) && runnable(PlanView::And(v)),
{
    lemma_runnable_parts(v);
    if v.len() == 1 {
        assert(runnable(v[0]));
    }
}

proof fn lemma_supersets_run(cs: Seq<QueryView>, n: int)
    requires
        n == cs.len(),
        supersets(cs, n) is Some,
        forall|i: int| 0 <= i < n ==> (#[trigger] cs[i]).valid(),
    ensures
        forall|i: int| 0 <= i < supersets(cs, n)->0.len() ==> runnable(#[trigger] supersets(cs, n)->0[i]),
    decreases cs, 1int,
{
    let v = supersets(cs, n)->0;
    assert(v.len() == n) by {
        if n > 0 {
            lemma_supersets_at(cs, n, 0);
        } else {
            assert(supersets(cs, 0) == Some(Seq::<PlanView>::empty()));
        }
    }
    assert forall|i: int| 0 <= i < v.len() implies runnable(#[trigger] v[i]) by {
        lemma_supersets_at(cs, n, i);
        lemma_superset_runs(cs[i], v[i]);
    }
}

/// A superset plan is runnable.
proof fn lemma_superset_runs(q: QueryView, p: PlanView)
    requires
        q.valid(),
        superset_of(q) == Some(p),
    ensures
        runnable(p),
    decreases q,
{
    match q {
        QueryView::Boost(inner, w) => {
            lemma_superset_runs(*inner, p);
        },
        QueryView::Not(n) => {},
        QueryView::Or(cs) => {
            lemma_supersets_run(cs, cs.len() as int);
            lemma_run_one(supersets(cs, cs.len() as int)->0);
        },
        QueryView::AtLeast { min, of } => {
            lemma_supersets_run(of, of.len() as int);
            lemma_run_one(supersets(of, of.len() as int)->0);
        },
        QueryView::Near { left, right, gap, ordered } => {
            let (pl, pr) = (superset_of(*left)->0, superset_of(*right)->0);
            lemma_superset_runs(*left, pl);
            lemma_superset_runs(*right, pr);
            let both = seq![pl, pr];
            assert forall|i: int| 0 <= i < both.len() implies runnable(#[trigger] both[i]) by {
                assert(i == 0 || i == 1);
            }
            lemma_run_one(both);
        },
        QueryView::Phrase { slots, slop } => {
            let n = slots.len() as int;
            let v = slot_plans(slots, n)->0;
            lemma_slot_plan_at(slots, n, 0);
            assert forall|i: int| 0 <= i < v.len() implies runnable(#[trigger] v[i]) by {
                lemma_slot_plan_at(slots, n, i);
                let alts = slots[i].alts;
                assert forall|j: int| 0 <= j < alts.len() implies (#[trigger] alts[j]).valid() by {
                    assert(slots[i].alts[j].valid());
                }
                lemma_supersets_run(alts, alts.len() as int);
                lemma_run_one(supersets(alts, alts.len() as int)->0);
            }
            lemma_run_one(v);
        },
        QueryView::And(cs) => {
            let n = cs.len() as int;
            let pos = positives(cs, n)->0;
            let neg = negatives(cs, n);
            assert forall|k: int| 0 <= k < pos.len() implies runnable(#[trigger] pos[k]) by {
                let i = lemma_positive_owner(cs, n, k);
                assert(cs[i].valid());
                lemma_superset_runs(cs[i], pos[k]);
            }
            lemma_run_one(pos);
            assert forall|k: int| 0 <= k < neg.len() implies runnable(#[trigger] neg[k]) by {
                let i = lemma_negative_owner(cs, n, k);
                assert(cs[i].valid());
                lemma_subset_runs(*cs[i]->Not_0, neg[k]);
            }
            lemma_run_one(neg);
        },
        _ => {},
    }
}

/// A subset plan is runnable.
proof fn lemma_subset_runs(q: QueryView, p: PlanView)
    requires
        q.valid(),
        subset_of(q) == Some(p),
    ensures
        runnable(p),
    decreases q,
{
    match q {
        QueryView::Boost(inner, w) => {
            lemma_subset_runs(*inner, p);
        },
        QueryView::Or(cs) => {
            let v = known_subsets(cs, cs.len() as int);
            assert forall|k: int| 0 <= k < v.len() implies runnable(#[trigger] v[k]) by {
                let i = lemma_known_owner(cs, cs.len() as int, k);
                assert(cs[i].valid());
                lemma_subset_runs(cs[i], v[k]);
            }
            lemma_run_one(v);
        },
        QueryView::And(cs) => {
            let n = cs.len() as int;
            let v = all_subsets(cs, n)->0;
            lemma_subsets_at(cs, n, 0);
            assert forall|i: int| 0 <= i < v.len() implies runnable(#[trigger] v[i]) by {
                lemma_subsets_at(cs, n, i);
                assert(cs[i].valid());
                lemma_subset_runs(cs[i], v[i]);
            }
            lemma_run_one(v);
        },
        QueryView::AtLeast { min, of } => {
            let n = of.len() as int;
            let v = all_subsets(of, n)->0;
            lemma_subsets_at(of, n, 0);
            assert forall|i: int| 0 <= i < v.len() implies runnable(#[trigger] v[i]) by {
                lemma_subsets_at(of, n, i);
                assert(of[i].valid());
                lemma_subset_runs(of[i], v[i]);
            }
            lemma_run_one(v);
        },
        _ => {},
    }
}

/// Every plan of a valid query can be searched for.
pub proof fn plans_are_runnable(q: QueryView, p: PlanView)
    requires
        q.valid(),
        plan_of(q) == Some(p),
    ensures
        runnable(p),
{
    lemma_superset_runs(q, superset_of(q)->0);
}

/// The plan of a query matches every document that the query matches.
pub proof fn plan_finds_every_match(q: QueryView, p: PlanView, doc: Doc)
    requires
        placed(doc),
        q.valid(),
        plan_of(q) == Some(p),
        satisfied(q, doc),
    ensures
        plan_matches(p, doc_terms(doc)),
{
    let s = superset_of(q)->0;
    lemma_superset(q, s, doc);
}

/// A plan that holds no [`Plan::Recheck`](crate::plan::Plan::Recheck) is
/// exact: it matches the documents that the query matches and no others.
pub proof fn plan_without_recheck_is_exact(q: QueryView, p: PlanView, doc: Doc)
    requires
        placed(doc),
        q.valid(),
        plan_of(q) == Some(p),
        !p.holds_recheck(),
    ensures
        plan_matches(p, doc_terms(doc)) <==> satisfied(q, doc),
{
    if satisfied(q, doc) {
        plan_finds_every_match(q, p, doc);
    }
    if plan_matches(p, doc_terms(doc)) {
        lemma_superset_sharp(q, p, doc);
    }
}

/// The same of texts: evaluating a plan over a text gives what the query
/// gives there, unless the plan holds a
/// [`Plan::Recheck`](crate::plan::Plan::Recheck).
pub proof fn text_match_is_exact(q: QueryView, p: PlanView, text: Seq<char>)
    requires
        q.valid(),
        plan_of(q) == Some(p),
        !p.holds_recheck(),
    ensures
        plan_matches(p, terms_of(text).to_set()) == satisfied(q, doc_of(text)),
{
    lemma_text_terms(text);
    plan_without_recheck_is_exact(q, p, doc_of(text));
}

/// And no match of a text is missed, whatever the plan.
pub proof fn text_match_is_found(q: QueryView, p: PlanView, text: Seq<char>)
    requires
        q.valid(),
        plan_of(q) == Some(p),
        satisfied(q, doc_of(text)),
    ensures
        plan_matches(p, terms_of(text).to_set()),
{
    lemma_text_terms(text);
    plan_finds_every_match(q, p, doc_of(text));
}

/// A text's terms are those of its document.
proof fn lemma_text_terms(text: Seq<char>)
    ensures
        placed(doc_of(text)),
        doc_terms(doc_of(text)) == terms_of(text).to_set(),
{
    let (doc, ts) = (doc_of(text), terms_of(text));
    lemma_token_positions(words_from(text, 0), words_from(text, 0).len() as int);
    assert forall|t: Seq<char>| doc_terms(doc).contains(t) <==> ts.to_set().contains(t) by {
        if doc_terms(doc).contains(t) {
            let i = choose|i: int| 0 <= i < doc.len() && (#[trigger] doc[i]).0 == t;
            assert(ts[i] == t);
        }
        if ts.contains(t) {
            let i = ts.index_of(t);
            assert(doc[i].0 == t);
        }
    }
    assert(doc_terms(doc) =~= ts.to_set());
}

/// Positions count words.
proof fn lemma_token_positions(ws: Seq<(int, Seq<char>)>, n: int)
    requires
        0 <= n,
    ensures
        forall|k: int| 0 <= k < tokens_of_words(ws, n).len() ==> 0 <= (#[trigger] tokens_of_words(ws, n)[k]).pos < n,
    decreases n,
{
    if n > 0 {
        lemma_token_positions(ws, n - 1);
        let (p, q) = (tokens_of_words(ws, n - 1), tokens_of_words(ws, n));
        assert forall|k: int| 0 <= k < q.len() implies 0 <= (#[trigger] q[k]).pos < n by {
            if k < p.len() {
                assert(q[k] == p[k]);
            }
        }
    }
}

} // verus!
