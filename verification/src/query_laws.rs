//! What queries ask of a document, said of its words.

use vstd::prelude::*;
use crate::grammar::{at_least, phrase_of_terms, ErrorView};
use crate::plan::{lemma_plan_parts, plan_matches, some_accepted, PlanView};
use crate::planner::{blurred, keeps_too_much, plan_of, slot_plans, superset_of, supersets};
use crate::interval::{forward, lemma_minimal_inside, near_windows, then_windows, within};
use crate::plan_laws::{and_satisfied, lemma_wide, nonempty, or_satisfied, placed};
use crate::query::{accepts, any_mark, inside, marks, marks_each, satisfied, slot_marks, slot_offsets, slot_set, slot_sets, spans, spans_each, stands, Doc, QueryView, SlotView};
use crate::span::lemma_forward;
use crate::windows::{count_in, cover_windows, is_placing, phrase_windows, reaches};

verus! {

// ---------------------------------------------------------------------------
// Words
// ---------------------------------------------------------------------------

/// The word `t` stands at position `p`.
pub open spec fn word_stands(doc: Doc, t: Seq<char>, p: int) -> bool {
    exists|i: int| 0 <= i < doc.len() && #[trigger] doc[i] == (t, p)
}

/// The word `t` stands somewhere.
pub open spec fn has_word(doc: Doc, t: Seq<char>) -> bool {
    exists|i: int| 0 <= i < doc.len() && (#[trigger] doc[i]).0 == t
}

/// A word is found where it stands.
pub proof fn term_is_found(t: Seq<char>, doc: Doc)
    ensures
        satisfied(QueryView::Term(t), doc) <==> has_word(doc, t),
        forall|p: int| spans(QueryView::Term(t), doc).contains((p, p)) <==> word_stands(doc, t, p),
        forall|x: (int, int)| spans(QueryView::Term(t), doc).contains(x) ==> x.0 == x.1,
{
    let q = QueryView::Term(t);
    assert forall|p: int| spans(q, doc).contains((p, p)) <==> word_stands(doc, t, p) by {
        if spans(q, doc).contains((p, p)) {
            assert(stands(q, doc, p));
            let i = choose|i: int| 0 <= i < doc.len() && (#[trigger] doc[i]).1 == p && accepts(q, doc[i].0);
            assert(doc[i] == (t, p));
        }
        if word_stands(doc, t, p) {
            let i = choose|i: int| 0 <= i < doc.len() && #[trigger] doc[i] == (t, p);
            assert(doc[i].1 == p && accepts(q, doc[i].0));
            assert(stands(q, doc, p));
        }
    }
    if satisfied(q, doc) {
        let x = choose|x: (int, int)| spans(q, doc).contains(x);
        assert(stands(q, doc, x.0));
    }
    if has_word(doc, t) {
        let i = choose|i: int| 0 <= i < doc.len() && (#[trigger] doc[i]).0 == t;
        assert(doc[i] == (t, doc[i].1));
        assert(word_stands(doc, t, doc[i].1));
        assert(spans(q, doc).contains((doc[i].1, doc[i].1)));
    }
}

/// A pattern is found in a document with a word that it leads, that holds it,
/// or that is near to it.
pub proof fn pattern_is_found(t: Seq<char>, k: int, doc: Doc)
    ensures
        satisfied(QueryView::Prefix(t), doc) <==> exists|i: int| 0 <= i < doc.len() && crate::text::starts((#[trigger] doc[i]).0, t),
        satisfied(QueryView::Fragment(t), doc) <==> exists|i: int| 0 <= i < doc.len() && crate::text::occurs((#[trigger] doc[i]).0, t),
        satisfied(QueryView::Fuzzy(t, k), doc) <==> exists|i: int| 0 <= i < doc.len() && crate::pattern::within((#[trigger] doc[i]).0, t, k),
{
    lemma_leaf_found(QueryView::Prefix(t), doc);
    lemma_leaf_found(QueryView::Fragment(t), doc);
    lemma_leaf_found(QueryView::Fuzzy(t, k), doc);
}

proof fn lemma_leaf_found(q: QueryView, doc: Doc)
    requires
        q.is_leaf(),
    ensures
        satisfied(q, doc) <==> exists|i: int| 0 <= i < doc.len() && accepts(q, (#[trigger] doc[i]).0),
{
    if satisfied(q, doc) {
        let x = choose|x: (int, int)| spans(q, doc).contains(x);
        assert(stands(q, doc, x.0));
    }
    if exists|i: int| 0 <= i < doc.len() && accepts(q, (#[trigger] doc[i]).0) {
        let i = choose|i: int| 0 <= i < doc.len() && accepts(q, (#[trigger] doc[i]).0);
        assert(stands(q, doc, doc[i].1));
        assert(spans(q, doc).contains((doc[i].1, doc[i].1)));
    }
}

// ---------------------------------------------------------------------------
// Thresholds
// ---------------------------------------------------------------------------

/// The items that a document satisfies.
pub open spec fn satisfied_items(items: Seq<QueryView>, doc: Doc) -> Set<int> {
    Set::new(|i: int| 0 <= i < items.len() && satisfied(items[i], doc))
}

/// The numbers of `s` from 0 to `n`.
spec fn part(s: Set<int>, n: int) -> Set<int> {
    Set::new(|i: int| 0 <= i < n && s.contains(i))
}

proof fn lemma_part(s: Set<int>, n: int)
    requires
        0 <= n,
    ensures
        part(s, n).finite(),
        part(s, n).len() <= n,
        (forall|i: int| 0 <= i < n ==> s.contains(i)) <==> part(s, n).len() == n,
        (exists|i: int| 0 <= i < n && s.contains(i)) <==> part(s, n).len() >= 1,
        n > 0 ==> part(s, n).len() == part(s, n - 1).len() + if s.contains(n - 1) { 1int } else { 0int },
    decreases n,
{
    if n == 0 {
        assert(part(s, 0) =~= Set::empty());
    } else {
        lemma_part(s, n - 1);
        if s.contains(n - 1) {
            assert(part(s, n) =~= part(s, n - 1).insert(n - 1));
        } else {
            assert(part(s, n) =~= part(s, n - 1));
        }
    }
}

proof fn lemma_count_part(ls: Seq<Set<(int, int)>>, n: int, x: (int, int), s: Set<int>)
    requires
        0 <= n <= ls.len(),
    ensures
        (forall|i: int| 0 <= i < n && reaches(#[trigger] ls[i], x) ==> s.contains(i)) ==> count_in(ls, n, x, -1) <= part(s, n).len(),
        (forall|i: int| 0 <= i < n && s.contains(i) ==> reaches(#[trigger] ls[i], x)) ==> count_in(ls, n, x, -1) >= part(s, n).len(),
    decreases n,
{
    lemma_part(s, n);
    if n > 0 {
        lemma_part(s, n - 1);
        lemma_count_part(ls, n - 1, x, s);
        assert(reaches(ls[n - 1], x) || !reaches(ls[n - 1], x));
    }
}

proof fn lemma_threshold_query(min: int, of: Seq<QueryView>, doc: Doc)
    requires
        placed(doc),
        (QueryView::AtLeast { min, of }).valid(),
    ensures
        satisfied(QueryView::AtLeast { min, of }, doc) <==> satisfied_items(of, doc).len() >= min,
{
    let q = QueryView::AtLeast { min, of };
    let each = spans_each(of, doc);
    let w = cover_windows(each, min);
    let n = of.len() as int;
    let s = satisfied_items(of, doc);
    assert(part(s, n) =~= s);
    lemma_part(s, n);
    if satisfied(q, doc) {
        let x = choose|x: (int, int)| spans(q, doc).contains(x);
        assert(w.contains(x));
        assert forall|i: int| 0 <= i < n && reaches(#[trigger] each[i], x) implies s.contains(i) by {
            let y = choose|y: (int, int)| #[trigger] each[i].contains(y) && within(x, y);
            assert(spans(of[i], doc).contains(y));
        }
        lemma_count_part(each, n, x, s);
    }
    if s.len() >= min {
        let on = |i: int| s.contains(i);
        assert forall|i: int| 0 <= i < of.len() && on(i) implies nonempty(#[trigger] each[i]) by {
            assert(satisfied(of[i], doc));
            let x = choose|x: (int, int)| spans(of[i], doc).contains(x);
            assert(each[i].contains(x));
        }
        assert forall|i: int, x: (int, int)| 0 <= i < of.len() && on(i) && #[trigger] each[i].contains(x) implies 0 <= x.0 <= x.1 by {
            assert(of[i].valid());
            lemma_forward(of[i], doc);
        }
        let m = lemma_wide(each, on, n);
        assert forall|i: int| 0 <= i < n && s.contains(i) implies reaches(#[trigger] each[i], (0, m)) by {
            assert(on(i));
        }
        lemma_count_part(each, n, (0, m), s);
        assert(w.contains((0, m)));
        assert(forward(w));
        let x = lemma_minimal_inside(w, (0, m));
        assert(spans(q, doc).contains(x));
    }
}

pub proof fn lemma_items_count(items: Seq<QueryView>, doc: Doc)
    ensures
        satisfied_items(items, doc).finite(),
        satisfied_items(items, doc).len() <= items.len(),
{
    let s = satisfied_items(items, doc);
    assert(part(s, items.len() as int) =~= s);
    lemma_part(s, items.len() as int);
}

/// `AT LEAST n` of `k` items is satisfied by exactly the documents that
/// satisfy `n` of them, or all `k` if there are fewer than `n`.
pub proof fn at_least_counts(n: int, items: Seq<QueryView>, doc: Doc)
    requires
        placed(doc),
        n >= 1,
        forall|i: int| 0 <= i < items.len() ==> (#[trigger] items[i]).valid() && !(items[i] is Not),
    ensures
        items.len() == 0 ==> at_least(n, items) == Ok::<Option<QueryView>, ErrorView>(None),
        items.len() > 0 ==> match at_least(n, items) {
            Ok(Some(q)) => satisfied(q, doc) <==> satisfied_items(items, doc).len() >= n || satisfied_items(items, doc).len() == items.len(),
            _ => false,
        },
{
    let k = items.len() as int;
    let s = satisfied_items(items, doc);
    assert(part(s, k) =~= s);
    lemma_part(s, k);
    if k == 1 {
        assert(s.contains(0) <==> satisfied(items[0], doc));
        if s.contains(0) {
            assert(exists|i: int| 0 <= i < k && s.contains(i));
        }
    } else if k > 1 {
        if n == 1 {
            or_satisfied(items, doc);
            if satisfied(QueryView::Or(items), doc) {
                let i = choose|i: int| 0 <= i < items.len() && satisfied(#[trigger] items[i], doc);
                assert(s.contains(i));
            }
            if exists|i: int| 0 <= i < k && s.contains(i) {
                let i = choose|i: int| 0 <= i < k && s.contains(i);
                assert(satisfied(items[i], doc));
            }
        } else if n >= k {
            and_satisfied(items, doc);
            assert(!(items[0] is Not));
            if satisfied(QueryView::And(items), doc) {
                assert forall|i: int| 0 <= i < k implies s.contains(i) by {
                    assert(!(items[i] is Not));
                }
            }
            if forall|i: int| 0 <= i < k ==> s.contains(i) {
                assert forall|i: int| 0 <= i < items.len() implies match #[trigger] items[i] {
                    QueryView::Not(inner) => !satisfied(*inner, doc),
                    _ => satisfied(items[i], doc),
                } by {
                    assert(s.contains(i));
                }
            }
        } else {
            lemma_threshold_query(n, items, doc);
        }
    }
}

// ---------------------------------------------------------------------------
// Distances
// ---------------------------------------------------------------------------

/// The words `t` and `u` stand with between `least` and `most` steps from the
/// one to the other.
pub open spec fn pair_stands(doc: Doc, t: Seq<char>, u: Seq<char>, least: int, most: int) -> bool {
    exists|p: int, q: int| #[trigger] word_stands(doc, t, p) && #[trigger] word_stands(doc, u, q) && least <= q - p <= most
}

proof fn lemma_then_pair(t: Seq<char>, u: Seq<char>, gap: int, doc: Doc)
    ensures
        nonempty(then_windows(spans(QueryView::Term(t), doc), spans(QueryView::Term(u), doc), gap)) <==> pair_stands(doc, t, u, 1, gap + 1),
{
    term_is_found(t, doc);
    term_is_found(u, doc);
    let (l, r) = (spans(QueryView::Term(t), doc), spans(QueryView::Term(u), doc));
    let w = then_windows(l, r, gap);
    if nonempty(w) {
        let x = choose|x: (int, int)| #[trigger] w.contains(x);
        let (a, b) = choose|a: (int, int), b: (int, int)|
            #[trigger] l.contains(a) && #[trigger] r.contains(b) && a.1 < b.0 && b.0 - a.1 - 1 <= gap && x == (a.0, b.1);
        assert(a == (a.0, a.0) && b == (b.0, b.0));
        assert(word_stands(doc, t, a.0) && word_stands(doc, u, b.0));
    }
    if pair_stands(doc, t, u, 1, gap + 1) {
        let (p, q) = choose|p: int, q: int| #[trigger] word_stands(doc, t, p) && #[trigger] word_stands(doc, u, q) && 1 <= q - p <= gap + 1;
        assert(l.contains((p, p)) && r.contains((q, q)));
        assert(w.contains((p, q)));
    }
}

proof fn lemma_then_forward(l: Set<(int, int)>, r: Set<(int, int)>, gap: int)
    requires
        forward(l),
        forward(r),
    ensures
        forward(then_windows(l, r, gap)),
{
    let w = then_windows(l, r, gap);
    assert forall|x: (int, int)| #[trigger] w.contains(x) implies 0 <= x.0 <= x.1 by {
        let (a, b) = choose|a: (int, int), b: (int, int)|
            #[trigger] l.contains(a) && #[trigger] r.contains(b) && a.1 < b.0 && b.0 - a.1 - 1 <= gap && x == (a.0, b.1);
        assert(l.contains(a) && r.contains(b));
    }
}

/// `a THEN/n b` asks that `b` stands behind `a` with at most `n` words
/// between; `a NEAR/n b` asks the same in either order.
pub proof fn distances_are_between_words(t: Seq<char>, u: Seq<char>, gap: int, ordered: bool, doc: Doc)
    requires
        placed(doc),
    ensures
        satisfied(
            QueryView::Near { left: Box::new(QueryView::Term(t)), right: Box::new(QueryView::Term(u)), gap, ordered },
            doc,
        ) <==> pair_stands(doc, t, u, 1, gap + 1) || (!ordered && pair_stands(doc, u, t, 1, gap + 1)),
{
    let (a, b) = (QueryView::Term(t), QueryView::Term(u));
    let q = QueryView::Near { left: Box::new(a), right: Box::new(b), gap, ordered };
    let (l, r) = (spans(a, doc), spans(b, doc));
    lemma_forward(a, doc);
    lemma_forward(b, doc);
    lemma_then_pair(t, u, gap, doc);
    lemma_then_pair(u, t, gap, doc);
    lemma_then_forward(l, r, gap);
    lemma_then_forward(r, l, gap);
    let w = near_windows(l, r, gap, ordered);
    assert(forward(w));
    if satisfied(q, doc) {
        let x = choose|x: (int, int)| spans(q, doc).contains(x);
        assert(w.contains(x));
        assert(then_windows(l, r, gap).contains(x) || then_windows(r, l, gap).contains(x));
    }
    if nonempty(w) {
        let x = choose|x: (int, int)| #[trigger] w.contains(x);
        let m = lemma_minimal_inside(w, x);
        assert(spans(q, doc).contains(m));
    }
    if nonempty(then_windows(l, r, gap)) {
        let x = choose|x: (int, int)| #[trigger] then_windows(l, r, gap).contains(x);
        assert(w.contains(x));
    }
    if !ordered && nonempty(then_windows(r, l, gap)) {
        let x = choose|x: (int, int)| #[trigger] then_windows(r, l, gap).contains(x);
        assert(w.contains(x));
    }
}

/// The words stand at `at`, `at + 1` and so on.
pub open spec fn run_stands(doc: Doc, ts: Seq<Seq<char>>, at: int) -> bool {
    forall|j: int| 0 <= j < ts.len() ==> word_stands(doc, #[trigger] ts[j], at + j)
}

#[verifier::spinoff_prover]
#[verifier::rlimit(60)]
proof fn lemma_phrase_found(slots: Seq<SlotView>, slop: int, doc: Doc)
    requires
        placed(doc),
        (QueryView::Phrase { slots, slop }).valid(),
    ensures
        satisfied(QueryView::Phrase { slots, slop }, doc) <==> nonempty(phrase_windows(slot_sets(slots, doc), slot_offsets(slots), slop)),
{
    let q = QueryView::Phrase { slots, slop };
    let (pos, offs) = (slot_sets(slots, doc), slot_offsets(slots));
    let w = phrase_windows(pos, offs, slop);
    if satisfied(q, doc) {
        let x = choose|x: (int, int)| spans(q, doc).contains(x);
        assert(w.contains(x));
    }
    assert(forward(w)) by {
        assert forall|x: (int, int)| #[trigger] w.contains(x) implies 0 <= x.0 <= x.1 by {
            let p = choose|p: Seq<int>| #[trigger] is_placing(pos, offs, p) && x == (p[0], p.last()) && (p.last() - p[0]) - (offs.last() - offs[0]) <= slop;
            lemma_placing_ascends(pos, offs, p, p.len() - 1);
            assert(pos[0].contains(p[0]));
            assert(slot_set(slots[0], doc).contains(p[0]));
            let a = choose|a: int| 0 <= a < slots[0].alts.len() && stands(#[trigger] slots[0].alts[a], doc, p[0]);
            let i = choose|i: int| 0 <= i < doc.len() && (#[trigger] doc[i]).1 == p[0] && accepts(slots[0].alts[a], doc[i].0);
            assert(0 <= doc[i].1);
        }
    }
    if nonempty(w) {
        let x = choose|x: (int, int)| #[trigger] w.contains(x);
        let m = lemma_minimal_inside(w, x);
        assert(spans(q, doc).contains(m));
    }
}

proof fn lemma_placing_ascends(pos: Seq<Set<int>>, offs: Seq<int>, p: Seq<int>, j: int)
    requires
        is_placing(pos, offs, p),
        offs.len() == p.len(),
        0 <= j < p.len(),
        forall|i: int| 0 < i < offs.len() ==> offs[i - 1] <= #[trigger] offs[i],
    ensures
        p[j] - p[0] >= offs[j] - offs[0] >= 0,
    decreases j,
{
    if j > 0 {
        lemma_placing_ascends(pos, offs, p, j - 1);
        assert(p[j] >= p[j - 1] + offs[j] - offs[j - 1]);
        assert(offs[j - 1] <= offs[j]);
    }
}

proof fn lemma_placing_tight(pos: Seq<Set<int>>, offs: Seq<int>, p: Seq<int>, j: int)
    requires
        is_placing(pos, offs, p),
        offs.len() == p.len(),
        0 <= j < p.len(),
        p.last() - p[0] <= offs.last() - offs[0],
    ensures
        p.last() - p[j] <= offs.last() - offs[j],
        p[j] - p[0] <= offs[j] - offs[0],
    decreases j,
{
    if j > 0 {
        lemma_placing_tight(pos, offs, p, j - 1);
        assert(p[j] >= p[j - 1] + offs[j] - offs[j - 1]);
    }
    lemma_placing_rest(pos, offs, p, j, p.len() - 1);
}

proof fn lemma_placing_rest(pos: Seq<Set<int>>, offs: Seq<int>, p: Seq<int>, i: int, j: int)
    requires
        is_placing(pos, offs, p),
        offs.len() == p.len(),
        0 <= i <= j < p.len(),
    ensures
        p[j] - p[i] >= offs[j] - offs[i],
    decreases j - i,
{
    if i < j {
        lemma_placing_rest(pos, offs, p, i, j - 1);
        assert(p[j] >= p[j - 1] + offs[j] - offs[j - 1]);
    }
}

#[verifier::spinoff_prover]
#[verifier::rlimit(60)]
proof fn lemma_run_windows(pos: Seq<Set<int>>, offs: Seq<int>, ts: Seq<Seq<char>>, doc: Doc)
    requires
        pos.len() == ts.len() >= 1,
        offs.len() == ts.len(),
        forall|j: int| 0 <= j < ts.len() ==> #[trigger] offs[j] == j,
        forall|j: int, p: int| 0 <= j < ts.len() ==> (#[trigger] pos[j].contains(p) <==> word_stands(doc, ts[j], p)),
    ensures
        nonempty(phrase_windows(pos, offs, 0)) <==> exists|at: int| run_stands(doc, ts, at),
{
    let w = phrase_windows(pos, offs, 0);
    if nonempty(w) {
        let x = choose|x: (int, int)| #[trigger] w.contains(x);
        lemma_window_is_run(pos, offs, ts, doc, x);
    }
    if exists|at: int| run_stands(doc, ts, at) {
        let at = choose|at: int| run_stands(doc, ts, at);
        lemma_run_is_window(pos, offs, ts, doc, at);
        assert(w.contains((at, at + ts.len() - 1)));
    }
}

#[verifier::spinoff_prover]
#[verifier::rlimit(60)]
proof fn lemma_phrase_slots(ts: Seq<Seq<char>>, slots: Seq<SlotView>, doc: Doc)
    requires
        1 <= ts.len() <= u32::MAX,
        slots.len() == ts.len(),
        forall|i: int| 0 <= i < ts.len() ==> (#[trigger] slots[i]).offset == i && slots[i].alts == seq![QueryView::Term(ts[i])],
    ensures
        (QueryView::Phrase { slots, slop: 0 }).valid(),
        forall|j: int| 0 <= j < ts.len() ==> #[trigger] slot_offsets(slots)[j] == j,
        forall|j: int, p: int| 0 <= j < ts.len() ==> (#[trigger] slot_sets(slots, doc)[j].contains(p) <==> word_stands(doc, ts[j], p)),
{
    let (pos, offs) = (slot_sets(slots, doc), slot_offsets(slots));
    assert forall|j: int| 0 <= j < ts.len() implies #[trigger] offs[j] == j by {
        assert(slots[j].offset == j);
    }
    assert forall|i: int, j: int| 0 <= i < slots.len() && 0 <= j < slots[i].alts.len() implies (#[trigger] slots[i].alts[j]).valid() by {
        assert(slots[i].alts == seq![QueryView::Term(ts[i])]);
        assert(slots[i].alts[j] == QueryView::Term(ts[i]));
    }
    assert forall|j: int| 0 < j < offs.len() implies offs[j - 1] <= #[trigger] offs[j] by {
        assert(offs[j - 1] == j - 1);
    }
    assert forall|j: int, p: int| 0 <= j < ts.len() implies (#[trigger] pos[j].contains(p) <==> word_stands(doc, ts[j], p)) by {
        assert(slots[j].alts == seq![QueryView::Term(ts[j])]);
        lemma_slot_of_word(slots[j], ts[j], doc, p);
    }
}

/// A phrase of words is found where they stand one right behind the other, in
/// the phrase's order.
#[verifier::spinoff_prover]
#[verifier::rlimit(60)]
pub proof fn phrase_is_a_run_of_words(ts: Seq<Seq<char>>, doc: Doc)
    requires
        placed(doc),
        1 <= ts.len() <= u32::MAX,
    ensures
        satisfied(phrase_of_terms(ts), doc) <==> exists|at: int| run_stands(doc, ts, at),
{
    let slots = phrase_of_terms(ts)->slots;
    lemma_phrase_slots(ts, slots, doc);
    lemma_phrase_found(slots, 0, doc);
    lemma_run_windows(slot_sets(slots, doc), slot_offsets(slots), ts, doc);
}

proof fn lemma_slot_of_word(s: SlotView, t: Seq<char>, doc: Doc, p: int)
    requires
        s.alts == seq![QueryView::Term(t)],
    ensures
        slot_set(s, doc).contains(p) <==> word_stands(doc, t, p),
{
    let q = QueryView::Term(t);
    term_is_found(t, doc);
    if slot_set(s, doc).contains(p) {
        let a = choose|a: int| 0 <= a < s.alts.len() && stands(#[trigger] s.alts[a], doc, p);
        assert(stands(q, doc, p));
        assert(spans(q, doc).contains((p, p)));
    }
    if word_stands(doc, t, p) {
        assert(spans(q, doc).contains((p, p)));
        assert(stands(s.alts[0], doc, p));
    }
}

/// A phrase of two words, the second `step` behind the first, is found where
/// they stand at least that far apart, with at most `slop` words more.
pub proof fn slop_is_extra_words(t: Seq<char>, u: Seq<char>, step: int, slop: int, doc: Doc)
    requires
        placed(doc),
        0 <= step <= u32::MAX,
    ensures
        satisfied(
            QueryView::Phrase {
                slots: seq![
                    SlotView { offset: 0, alts: seq![QueryView::Term(t)] },
                    SlotView { offset: step, alts: seq![QueryView::Term(u)] },
                ],
                slop,
            },
            doc,
        ) <==> pair_stands(doc, t, u, step, step + slop),
{
    let slots = seq![
        SlotView { offset: 0, alts: seq![QueryView::Term(t)] },
        SlotView { offset: step, alts: seq![QueryView::Term(u)] },
    ];
    lemma_two_slots(slots, t, u, slop, doc);
}

#[verifier::spinoff_prover]
#[verifier::rlimit(60)]
proof fn lemma_two_slots(slots: Seq<SlotView>, t: Seq<char>, u: Seq<char>, slop: int, doc: Doc)
    requires
        placed(doc),
        slots.len() == 2,
        slots[0].offset == 0,
        0 <= slots[1].offset <= u32::MAX,
        slots[0].alts == seq![QueryView::Term(t)],
        slots[1].alts == seq![QueryView::Term(u)],
    ensures
        satisfied(QueryView::Phrase { slots, slop }, doc) <==> pair_stands(doc, t, u, slots[1].offset, slots[1].offset + slop),
{
    let step = slots[1].offset;
    let q = QueryView::Phrase { slots, slop };
    let (pos, offs) = (slot_sets(slots, doc), slot_offsets(slots));
    assert(offs =~= seq![0, step]);
    assert(q.valid()) by {
        assert forall|i: int, j: int| 0 <= i < slots.len() && 0 <= j < slots[i].alts.len() implies (#[trigger] slots[i].alts[j]).valid() by {
            if i == 0 {
                assert(slots[i].alts[j] == QueryView::Term(t));
            } else {
                assert(slots[i].alts[j] == QueryView::Term(u));
            }
        }
    }
    lemma_phrase_found(slots, slop, doc);
    let w = phrase_windows(pos, offs, slop);
    assert forall|p: int| pos[0].contains(p) <==> word_stands(doc, t, p) by {
        lemma_slot_of_word(slots[0], t, doc, p);
    }
    assert forall|p: int| pos[1].contains(p) <==> word_stands(doc, u, p) by {
        lemma_slot_of_word(slots[1], u, doc, p);
    }
    if nonempty(w) {
        let x = choose|x: (int, int)| #[trigger] w.contains(x);
        let p = choose|p: Seq<int>| #[trigger] is_placing(pos, offs, p) && x == (p[0], p.last()) && (p.last() - p[0]) - (offs.last() - offs[0]) <= slop;
        assert(pos[0].contains(p[0]) && pos[1].contains(p[1]));
        assert(p[1] >= p[0] + offs[1] - offs[0]);
        assert(word_stands(doc, t, p[0]) && word_stands(doc, u, p[1]));
    }
    if pair_stands(doc, t, u, step, step + slop) {
        let (a, b) = choose|p: int, q: int| #[trigger] word_stands(doc, t, p) && #[trigger] word_stands(doc, u, q) && step <= q - p <= step + slop;
        let p = seq![a, b];
        assert(is_placing(pos, offs, p));
        assert(w.contains((p[0], p.last())));
    }
}

// ---------------------------------------------------------------------------
// Marks
// ---------------------------------------------------------------------------

/// `leaf` stands in `q` outside every negation.
pub open spec fn asks_for(q: QueryView, leaf: QueryView) -> bool
    decreases q,
{
    match q {
        QueryView::Not(n) => false,
        QueryView::Boost(inner, w) => asks_for(*inner, leaf),
        QueryView::And(cs) => exists|i: int| 0 <= i < cs.len() && asks_for(#[trigger] cs[i], leaf),
        QueryView::Or(cs) => exists|i: int| 0 <= i < cs.len() && asks_for(#[trigger] cs[i], leaf),
        QueryView::AtLeast { min, of } => exists|i: int| 0 <= i < of.len() && asks_for(#[trigger] of[i], leaf),
        QueryView::Phrase { slots, slop } => exists|i: int, j: int|
            0 <= i < slots.len() && 0 <= j < slots[i].alts.len() && asks_for(#[trigger] slots[i].alts[j], leaf),
        QueryView::Near { left, right, gap, ordered } => asks_for(*left, leaf) || asks_for(*right, leaf),
        _ => leaf == q,
    }
}

/// Without phrases and distances.
pub open spec fn is_flat(q: QueryView) -> bool
    decreases q,
{
    match q {
        QueryView::Not(n) => true,
        QueryView::Boost(inner, w) => is_flat(*inner),
        QueryView::And(cs) => forall|i: int| 0 <= i < cs.len() ==> is_flat(#[trigger] cs[i]),
        QueryView::Or(cs) => forall|i: int| 0 <= i < cs.len() ==> is_flat(#[trigger] cs[i]),
        QueryView::AtLeast { min, of } => forall|i: int| 0 <= i < of.len() ==> is_flat(#[trigger] of[i]),
        QueryView::Phrase { slots, slop } => false,
        QueryView::Near { left, right, gap, ordered } => false,
        _ => true,
    }
}

/// What is marked is a word that the query asks for.
pub proof fn marks_are_asked_for(q: QueryView, doc: Doc, p: int) -> (leaf: QueryView)
    requires
        marks(q, doc).contains(p),
    ensures
        asks_for(q, leaf),
        stands(leaf, doc, p),
    decreases q,
{
    match q {
        QueryView::Not(n) => q,
        QueryView::Boost(inner, w) => marks_are_asked_for(*inner, doc, p),
        QueryView::And(cs) => {
            let each = marks_each(cs, doc);
            let i = choose|i: int| 0 <= i < each.len() && (#[trigger] each[i]).contains(p);
            assert(marks(cs[i], doc).contains(p));
            let leaf = marks_are_asked_for(cs[i], doc, p);
            assert(asks_for(q->And_0[i], leaf));
            leaf
        },
        QueryView::Or(cs) => {
            let each = marks_each(cs, doc);
            let i = choose|i: int| 0 <= i < each.len() && (#[trigger] each[i]).contains(p);
            assert(marks(cs[i], doc).contains(p));
            let leaf = marks_are_asked_for(cs[i], doc, p);
            assert(asks_for(q->Or_0[i], leaf));
            leaf
        },
        QueryView::AtLeast { min, of } => {
            let each = marks_each(of, doc);
            let i = choose|i: int| 0 <= i < each.len() && (#[trigger] each[i]).contains(p);
            assert(marks(of[i], doc).contains(p));
            let leaf = marks_are_asked_for(of[i], doc, p);
            assert(asks_for(q->of[i], leaf));
            leaf
        },
        QueryView::Phrase { slots, slop } => {
            let each = slot_marks(slots, doc);
            let i = choose|i: int| 0 <= i < each.len() && (#[trigger] each[i]).contains(p);
            let alts = marks_each(slots[i].alts, doc);
            assert(any_mark(alts).contains(p));
            let j = choose|j: int| 0 <= j < alts.len() && (#[trigger] alts[j]).contains(p);
            assert(marks(slots[i].alts[j], doc).contains(p));
            let leaf = marks_are_asked_for(slots[i].alts[j], doc, p);
            assert(asks_for(q->slots[i].alts[j], leaf));
            leaf
        },
        QueryView::Near { left, right, gap, ordered } => {
            if marks(*left, doc).contains(p) {
                marks_are_asked_for(*left, doc, p)
            } else {
                marks_are_asked_for(*right, doc, p)
            }
        },
        _ => q,
    }
}

/// Without phrases and distances, every word that a query asks for is marked.
pub proof fn asked_for_words_are_marked(q: QueryView, leaf: QueryView, doc: Doc, p: int)
    requires
        is_flat(q),
        asks_for(q, leaf),
        stands(leaf, doc, p),
    ensures
        marks(q, doc).contains(p),
    decreases q,
{
    match q {
        QueryView::Boost(inner, w) => {
            asked_for_words_are_marked(*inner, leaf, doc, p);
        },
        QueryView::And(cs) => {
            let i = choose|i: int| 0 <= i < cs.len() && asks_for(#[trigger] cs[i], leaf);
            assert(is_flat(q->And_0[i]));
            asked_for_words_are_marked(cs[i], leaf, doc, p);
            assert(marks_each(cs, doc)[i].contains(p));
        },
        QueryView::Or(cs) => {
            let i = choose|i: int| 0 <= i < cs.len() && asks_for(#[trigger] cs[i], leaf);
            assert(is_flat(q->Or_0[i]));
            asked_for_words_are_marked(cs[i], leaf, doc, p);
            assert(marks_each(cs, doc)[i].contains(p));
        },
        QueryView::AtLeast { min, of } => {
            let i = choose|i: int| 0 <= i < of.len() && asks_for(#[trigger] of[i], leaf);
            assert(is_flat(q->of[i]));
            asked_for_words_are_marked(of[i], leaf, doc, p);
            assert(marks_each(of, doc)[i].contains(p));
        },
        _ => {},
    }
}

#[verifier::spinoff_prover]
#[verifier::rlimit(60)]
proof fn lemma_run_spans(ts: Seq<Seq<char>>, doc: Doc, x: (int, int))
    requires
        1 <= ts.len() <= u32::MAX,
    ensures
        spans(phrase_of_terms(ts), doc).contains(x) <==> run_stands(doc, ts, x.0) && x.1 == x.0 + ts.len() - 1,
{
    let q = phrase_of_terms(ts);
    let slots = q->slots;
    lemma_phrase_slots(ts, slots, doc);
    let (pos, offs) = (slot_sets(slots, doc), slot_offsets(slots));
    let w = phrase_windows(pos, offs, 0);
    assert forall|y: (int, int)| #[trigger] w.contains(y) <==> run_stands(doc, ts, y.0) && y.1 == y.0 + ts.len() - 1 by {
        lemma_run_window(pos, offs, ts, doc, y);
    }
    if w.contains(x) {
        assert forall|y: (int, int)| #[trigger] w.contains(y) && within(x, y) implies y == x by {}
    }
}

proof fn lemma_run_window(pos: Seq<Set<int>>, offs: Seq<int>, ts: Seq<Seq<char>>, doc: Doc, x: (int, int))
    requires
        pos.len() == ts.len() >= 1,
        offs.len() == ts.len(),
        forall|j: int| 0 <= j < ts.len() ==> #[trigger] offs[j] == j,
        forall|j: int, p: int| 0 <= j < ts.len() ==> (#[trigger] pos[j].contains(p) <==> word_stands(doc, ts[j], p)),
    ensures
        phrase_windows(pos, offs, 0).contains(x) <==> run_stands(doc, ts, x.0) && x.1 == x.0 + ts.len() - 1,
{
    if phrase_windows(pos, offs, 0).contains(x) {
        lemma_window_is_run(pos, offs, ts, doc, x);
    }
    if run_stands(doc, ts, x.0) && x.1 == x.0 + ts.len() - 1 {
        lemma_run_is_window(pos, offs, ts, doc, x.0);
    }
}

#[verifier::spinoff_prover]
#[verifier::rlimit(60)]
proof fn lemma_window_is_run(pos: Seq<Set<int>>, offs: Seq<int>, ts: Seq<Seq<char>>, doc: Doc, x: (int, int))
    requires
        pos.len() == ts.len() >= 1,
        offs.len() == ts.len(),
        forall|j: int| 0 <= j < ts.len() ==> #[trigger] offs[j] == j,
        forall|j: int, p: int| 0 <= j < ts.len() ==> (#[trigger] pos[j].contains(p) <==> word_stands(doc, ts[j], p)),
        phrase_windows(pos, offs, 0).contains(x),
    ensures
        run_stands(doc, ts, x.0),
        x.1 == x.0 + ts.len() - 1,
{
    let n = ts.len() as int;
    let p = choose|p: Seq<int>| #[trigger] is_placing(pos, offs, p) && x == (p[0], p.last()) && (p.last() - p[0]) - (offs.last() - offs[0]) <= 0;
    assert forall|j: int| 0 <= j < ts.len() implies word_stands(doc, #[trigger] ts[j], p[0] + j) by {
        lemma_placing_tight(pos, offs, p, j);
        lemma_placing_rest(pos, offs, p, 0, j);
        assert(pos[j].contains(p[j]));
        assert(offs[j] == j && offs[0] == 0);
    }
    lemma_placing_rest(pos, offs, p, 0, n - 1);
    assert(offs[n - 1] == n - 1 && offs[0] == 0);
}

#[verifier::spinoff_prover]
#[verifier::rlimit(60)]
proof fn lemma_run_is_window(pos: Seq<Set<int>>, offs: Seq<int>, ts: Seq<Seq<char>>, doc: Doc, at: int)
    requires
        pos.len() == ts.len() >= 1,
        offs.len() == ts.len(),
        forall|j: int| 0 <= j < ts.len() ==> #[trigger] offs[j] == j,
        forall|j: int, p: int| 0 <= j < ts.len() ==> (#[trigger] pos[j].contains(p) <==> word_stands(doc, ts[j], p)),
        run_stands(doc, ts, at),
    ensures
        phrase_windows(pos, offs, 0).contains((at, at + ts.len() - 1)),
{
    let p = Seq::new(ts.len(), |j: int| at + j);
    assert forall|j: int| 0 <= j < p.len() implies pos[j].contains(#[trigger] p[j]) by {
        assert(word_stands(doc, ts[j], at + j));
    }
    assert forall|j: int| 0 < j < p.len() implies #[trigger] p[j] >= p[j - 1] + offs[j] - offs[j - 1] by {
        assert(offs[j] == j && offs[j - 1] == j - 1);
    }
    assert(is_placing(pos, offs, p));
    assert(p[0] == at && p.last() == at + ts.len() - 1);
}

/// A phrase marks its words where they stand one behind the other, and
/// nowhere else.
#[verifier::spinoff_prover]
#[verifier::rlimit(60)]
pub proof fn phrase_marks_its_runs(ts: Seq<Seq<char>>, doc: Doc, p: int)
    requires
        1 <= ts.len() <= u32::MAX,
    ensures
        marks(phrase_of_terms(ts), doc).contains(p) <==> exists|at: int| #[trigger] run_stands(doc, ts, at) && at <= p < at + ts.len(),
{
    let q = phrase_of_terms(ts);
    let slots = q->slots;
    let s = spans(q, doc);
    let each = slot_marks(slots, doc);
    let n = ts.len() as int;
    if marks(q, doc).contains(p) {
        assert(inside(s, p));
        let x = choose|x: (int, int)| #[trigger] s.contains(x) && x.0 <= p <= x.1;
        lemma_run_spans(ts, doc, x);
        assert(run_stands(doc, ts, x.0));
    }
    if exists|at: int| #[trigger] run_stands(doc, ts, at) && at <= p < at + n {
        let at = choose|at: int| #[trigger] run_stands(doc, ts, at) && at <= p < at + n;
        let x = (at, at + n - 1);
        lemma_run_spans(ts, doc, x);
        assert(s.contains(x));
        assert(inside(s, p));
        let j = p - at;
        assert(word_stands(doc, ts[j], at + j));
        let leaf = QueryView::Term(ts[j]);
        term_is_found(ts[j], doc);
        assert(spans(leaf, doc).contains((p, p)));
        assert(stands(leaf, doc, p));
        let alts = slots[j].alts;
        assert(alts =~= seq![leaf]);
        assert(alts[0] == leaf);
        assert(marks(leaf, doc).contains(p));
        assert(marks_each(alts, doc)[0].contains(p));
        assert(any_mark(marks_each(alts, doc)).contains(p));
        assert(each[j].contains(p));
        assert(any_mark(each).contains(p));
    }
}

// ---------------------------------------------------------------------------
// Plans
// ---------------------------------------------------------------------------

/// Words and patterns joined by `AND` and `OR`.
pub open spec fn is_positive(q: QueryView) -> bool
    decreases q,
{
    match q {
        QueryView::Boost(inner, w) => is_positive(*inner),
        QueryView::And(cs) => forall|i: int| 0 <= i < cs.len() ==> is_positive(#[trigger] cs[i]),
        QueryView::Or(cs) => forall|i: int| 0 <= i < cs.len() ==> is_positive(#[trigger] cs[i]),
        _ => q.is_leaf(),
    }
}

/// The same, with such queries negated under `AND`.
pub open spec fn is_boolean(q: QueryView) -> bool
    decreases q,
{
    match q {
        QueryView::Boost(inner, w) => is_boolean(*inner),
        QueryView::And(cs) => forall|i: int| 0 <= i < cs.len() ==> match #[trigger] cs[i] {
            QueryView::Not(inner) => is_positive(*inner),
            _ => is_boolean(cs[i]),
        },
        QueryView::Or(cs) => forall|i: int| 0 <= i < cs.len() ==> is_boolean(#[trigger] cs[i]),
        _ => q.is_leaf(),
    }
}

proof fn lemma_positive(q: QueryView)
    requires
        is_positive(q),
    ensures
        !blurred(q),
        !q.positional(),
    decreases q,
{
    match q {
        QueryView::Boost(inner, w) => {
            lemma_positive(*inner);
        },
        QueryView::And(cs) => {
            assert forall|i: int| 0 <= i < cs.len() implies !blurred(#[trigger] cs[i]) && !cs[i].positional() && !(cs[i] is Not) by {
                assert(is_positive(q->And_0[i]));
                lemma_positive(cs[i]);
            }
        },
        QueryView::Or(cs) => {
            assert forall|i: int| 0 <= i < cs.len() implies !blurred(#[trigger] cs[i]) && !cs[i].positional() by {
                assert(is_positive(q->Or_0[i]));
                lemma_positive(cs[i]);
            }
        },
        _ => {},
    }
}

proof fn lemma_boolean(q: QueryView)
    requires
        is_boolean(q),
    ensures
        !keeps_too_much(q),
        !q.positional(),
    decreases q,
{
    match q {
        QueryView::Boost(inner, w) => {
            lemma_boolean(*inner);
        },
        QueryView::And(cs) => {
            assert forall|i: int| 0 <= i < cs.len() implies !(#[trigger] cs[i]).positional() && match cs[i] {
                QueryView::Not(inner) => !blurred(*inner),
                _ => !keeps_too_much(cs[i]),
            } by {
                match q->And_0[i] {
                    QueryView::Not(inner) => {
                        lemma_positive(*inner);
                    },
                    _ => {
                        lemma_boolean(cs[i]);
                    },
                }
            }
        },
        QueryView::Or(cs) => {
            assert forall|i: int| 0 <= i < cs.len() implies !keeps_too_much(#[trigger] cs[i]) && !cs[i].positional() by {
                assert(is_boolean(q->Or_0[i]));
                lemma_boolean(cs[i]);
            }
        },
        _ => {},
    }
}

/// A query of words, patterns, `AND`, `OR` and negated operands needs no
/// recheck: its plan is the plan itself.
pub proof fn boolean_queries_need_no_recheck(q: QueryView)
    requires
        is_boolean(q),
    ensures
        plan_of(q) == superset_of(q),
        plan_of(q) matches Some(p) ==> !(p is Recheck),
{
    lemma_boolean(q);
    lemma_no_recheck(q);
}

proof fn lemma_no_recheck(q: QueryView)
    ensures
        superset_of(q) matches Some(p) ==> !(p is Recheck),
    decreases q,
{
    match q {
        QueryView::Boost(inner, w) => {
            lemma_no_recheck(*inner);
        },
        QueryView::And(cs) => {
            match crate::planner::positives(cs, cs.len() as int) {
                Some(pos) => {
                    if pos.len() == 1 {
                        lemma_positives_no_recheck(cs, cs.len() as int);
                    }
                },
                None => {},
            }
        },
        _ => {},
    }
}

proof fn lemma_positives_no_recheck(cs: Seq<QueryView>, n: int)
    requires
        0 <= n <= cs.len(),
    ensures
        crate::planner::positives(cs, n) matches Some(v) ==> forall|i: int| 0 <= i < v.len() ==> !((#[trigger] v[i]) is Recheck),
    decreases cs, n,
{
    if n > 0 {
        lemma_positives_no_recheck(cs, n - 1);
        lemma_no_recheck(cs[n - 1]);
    }
}

/// The plan of a phrase asks for each of its words.
pub proof fn phrase_plan_asks_for_each_word(ts: Seq<Seq<char>>, terms: Set<Seq<char>>)
    requires
        ts.len() >= 1,
    ensures
        plan_of(phrase_of_terms(ts)) matches Some(p) && (plan_matches(p, terms) <==> forall|i: int| 0 <= i < ts.len() ==> terms.contains(#[trigger] ts[i])),
{
    let q = phrase_of_terms(ts);
    let slots = q->slots;
    let n = ts.len() as int;
    lemma_slot_plans(ts, slots, n);
    let v = slot_plans(slots, n)->0;
    lemma_plan_parts(v, terms);
    assert forall|i: int| 0 <= i < n implies (plan_matches(#[trigger] v[i], terms) <==> terms.contains(ts[i])) by {
        lemma_term_plan_matches(ts[i], terms);
    }
    if forall|i: int| 0 <= i < v.len() ==> plan_matches(#[trigger] v[i], terms) {
        assert forall|i: int| 0 <= i < n implies terms.contains(#[trigger] ts[i]) by {
            assert(plan_matches(v[i], terms));
        }
    }
}

proof fn lemma_term_plan_matches(t: Seq<char>, terms: Set<Seq<char>>)
    ensures
        plan_matches(PlanView::Term(t), terms) <==> terms.contains(t),
{
    let p = PlanView::Term(t);
    if terms.contains(t) {
        assert(crate::plan::plan_accepts(p, t));
        assert(some_accepted(p, terms));
    }
}

proof fn lemma_slot_plans(ts: Seq<Seq<char>>, slots: Seq<SlotView>, n: int)
    requires
        slots.len() == ts.len(),
        0 <= n <= ts.len(),
        forall|i: int| 0 <= i < ts.len() ==> (#[trigger] slots[i]).alts == seq![QueryView::Term(ts[i])],
    ensures
        slot_plans(slots, n) matches Some(v) && v.len() == n && forall|i: int| 0 <= i < n ==> #[trigger] v[i] == PlanView::Term(ts[i]),
    decreases n,
{
    if n > 0 {
        lemma_slot_plans(ts, slots, n - 1);
        let alts = slots[n - 1].alts;
        assert(alts == seq![QueryView::Term(ts[n - 1])]);
        assert(alts[0] == QueryView::Term(ts[n - 1]));
        assert(superset_of(alts[0]) == Some(PlanView::Term(ts[n - 1])));
        assert(supersets(alts, 0) == Some(Seq::<PlanView>::empty()));
        assert(supersets(alts, 1) == Some(Seq::<PlanView>::empty().push(PlanView::Term(ts[n - 1]))));
    }
}

/// The plan of a distance asks for the words on both sides.
pub proof fn distance_plan_asks_for_both(t: Seq<char>, u: Seq<char>, gap: int, ordered: bool, terms: Set<Seq<char>>)
    ensures
        plan_of(QueryView::Near { left: Box::new(QueryView::Term(t)), right: Box::new(QueryView::Term(u)), gap, ordered }) matches Some(p) && (
        plan_matches(p, terms) <==> terms.contains(t) && terms.contains(u)),
{
    let v = seq![PlanView::Term(t), PlanView::Term(u)];
    lemma_plan_parts(v, terms);
    lemma_term_plan_matches(t, terms);
    lemma_term_plan_matches(u, terms);
    let q = QueryView::Near { left: Box::new(QueryView::Term(t)), right: Box::new(QueryView::Term(u)), gap, ordered };
    assert(superset_of(QueryView::Term(t)) == Some(PlanView::Term(t)));
    assert(superset_of(QueryView::Term(u)) == Some(PlanView::Term(u)));
    assert(superset_of(q) == Some(PlanView::And(v)));
    assert(v[0] == PlanView::Term(t) && v[1] == PlanView::Term(u));
}

/// A negation has no plan, nor have alternatives of which one is a negation or
/// a conjunction of nothing else: they would match almost everything.
pub proof fn negations_have_no_plan(q: QueryView, cs: Seq<QueryView>, i: int)
    requires
        0 <= i < cs.len(),
    ensures
        plan_of(QueryView::Not(Box::new(q))) is None,
        cs[i] is Not ==> plan_of(QueryView::Or(cs)) is None,
        (forall|k: int| 0 <= k < cs.len() ==> (#[trigger] cs[k]) is Not) ==> plan_of(QueryView::And(cs)) is None,
{
    let n = cs.len() as int;
    if cs[i] is Not {
        lemma_no_supersets(cs, n, i);
        assert(superset_of(QueryView::Or(cs)) is None);
    }
    if forall|k: int| 0 <= k < cs.len() ==> (#[trigger] cs[k]) is Not {
        lemma_no_positives(cs, n);
        assert(superset_of(QueryView::And(cs)) is None);
    }
}

proof fn lemma_no_supersets(cs: Seq<QueryView>, n: int, i: int)
    requires
        0 <= i < n <= cs.len(),
        cs[i] is Not,
    ensures
        supersets(cs, n) is None,
    decreases n,
{
    if i < n - 1 {
        lemma_no_supersets(cs, n - 1, i);
    } else {
        assert(superset_of(cs[i]) is None);
    }
}

proof fn lemma_no_positives(cs: Seq<QueryView>, n: int)
    requires
        0 <= n <= cs.len(),
        forall|k: int| 0 <= k < cs.len() ==> (#[trigger] cs[k]) is Not,
    ensures
        crate::planner::positives(cs, n) == Some(Seq::<PlanView>::empty()),
    decreases n,
{
    if n > 0 {
        lemma_no_positives(cs, n - 1);
        assert(cs[n - 1] is Not);
    }
}

/// Words and patterns joined by `AND` and `OR` have a plan.
pub proof fn positive_queries_have_a_plan(q: QueryView)
    requires
        is_positive(q),
        q.valid(),
    ensures
        plan_of(q) is Some,
    decreases q,
{
    match q {
        QueryView::Boost(inner, w) => {
            positive_queries_have_a_plan(*inner);
        },
        QueryView::And(cs) => {
            assert forall|i: int| 0 <= i < cs.len() implies superset_of(#[trigger] cs[i]) is Some && !(cs[i] is Not) by {
                assert(is_positive(q->And_0[i]) && q->And_0[i].valid());
                positive_queries_have_a_plan(cs[i]);
            }
            lemma_all_positives(cs, cs.len() as int);
        },
        QueryView::Or(cs) => {
            assert forall|i: int| 0 <= i < cs.len() implies superset_of(#[trigger] cs[i]) is Some by {
                assert(is_positive(q->Or_0[i]) && q->Or_0[i].valid());
                positive_queries_have_a_plan(cs[i]);
            }
            lemma_all_supersets(cs, cs.len() as int);
        },
        _ => {},
    }
}

proof fn lemma_all_positives(cs: Seq<QueryView>, n: int)
    requires
        0 <= n <= cs.len(),
        forall|i: int| 0 <= i < cs.len() ==> superset_of(#[trigger] cs[i]) is Some && !(cs[i] is Not),
    ensures
        crate::planner::positives(cs, n) matches Some(v) && v.len() == n,
    decreases n,
{
    if n > 0 {
        lemma_all_positives(cs, n - 1);
        assert(superset_of(cs[n - 1]) is Some);
    }
}

proof fn lemma_all_supersets(cs: Seq<QueryView>, n: int)
    requires
        0 <= n <= cs.len(),
        forall|i: int| 0 <= i < cs.len() ==> superset_of(#[trigger] cs[i]) is Some,
    ensures
        supersets(cs, n) is Some,
    decreases n,
{
    if n > 0 {
        lemma_all_supersets(cs, n - 1);
        assert(superset_of(cs[n - 1]) is Some);
    }
}

/// The word `t` stands at `a` and `u` at `b`, or where the order is free, the
/// other way round.
pub open spec fn both_stand(doc: Doc, t: Seq<char>, u: Seq<char>, ordered: bool, a: int, b: int) -> bool {
    ||| word_stands(doc, t, a) && word_stands(doc, u, b)
    ||| !ordered && word_stands(doc, u, a) && word_stands(doc, t, b)
}

/// A distance marks its words, and only inside a match: between a word of the
/// one side and a word of the other that stand near enough.
pub proof fn distance_marks_its_matches(t: Seq<char>, u: Seq<char>, gap: int, ordered: bool, doc: Doc, p: int)
    requires
        marks(QueryView::Near { left: Box::new(QueryView::Term(t)), right: Box::new(QueryView::Term(u)), gap, ordered }, doc).contains(p),
    ensures
        word_stands(doc, t, p) || word_stands(doc, u, p),
        exists|a: int, b: int|
            a <= p <= b && 1 <= b - a <= gap + 1 && #[trigger] both_stand(doc, t, u, ordered, a, b),
{
    let (l, r) = (QueryView::Term(t), QueryView::Term(u));
    let q = QueryView::Near { left: Box::new(l), right: Box::new(r), gap, ordered };
    let (ls, rs) = (spans(l, doc), spans(r, doc));
    term_is_found(t, doc);
    term_is_found(u, doc);
    assert(marks(l, doc).contains(p) || marks(r, doc).contains(p));
    assert(stands(l, doc, p) || stands(r, doc, p));
    assert(ls.contains((p, p)) || rs.contains((p, p)));
    assert(inside(spans(q, doc), p));
    let x = choose|x: (int, int)| #[trigger] spans(q, doc).contains(x) && x.0 <= p <= x.1;
    assert(near_windows(ls, rs, gap, ordered).contains(x));
    if then_windows(ls, rs, gap).contains(x) {
        let (a, b) = choose|a: (int, int), b: (int, int)|
            #[trigger] ls.contains(a) && #[trigger] rs.contains(b) && a.1 < b.0 && b.0 - a.1 - 1 <= gap && x == (a.0, b.1);
        assert(a == (a.0, a.0) && b == (b.0, b.0));
        let (m, n) = (a.0, b.0);
        assert(word_stands(doc, t, m) && word_stands(doc, u, n));
        assert(m <= p <= n && 1 <= n - m <= gap + 1);
        assert(both_stand(doc, t, u, ordered, m, n));
    } else {
        let (a, b) = choose|a: (int, int), b: (int, int)|
            #[trigger] rs.contains(a) && #[trigger] ls.contains(b) && a.1 < b.0 && b.0 - a.1 - 1 <= gap && x == (a.0, b.1);
        assert(a == (a.0, a.0) && b == (b.0, b.0));
        let (m, n) = (a.0, b.0);
        assert(word_stands(doc, u, m) && word_stands(doc, t, n));
        assert(m <= p <= n && 1 <= n - m <= gap + 1);
        assert(!ordered);
        assert(both_stand(doc, t, u, ordered, m, n));
    }
}

} // verus!
