//! Relevance scores: what BM25 reads of a query and of a document.
//!
//! The index keeps only which rows hold a term, not how often, so scores
//! are computed from the row's own text (term frequencies and length, via
//! [`DocWords`]) and collection statistics the index does have (row count,
//! each term's document frequency, total postings).
//!
//! * **Weights**: every leaf outside a negation carries the boosts above it;
//!   a document term matched by several leaves gets the sum of their weights
//!   (so `"craft beer"^3 OR craft` weighs `craft` 4).
//! * **Patterns** (`brew*`, `*craft*`, `beer~`) score each document term
//!   they match as a term of its own.
//! * **Length**: a document's length is its number of distinct terms, the
//!   quantity the index's postings add up to, so the average length is
//!   exact without storing lengths.
//! * **Non-matching rows** are scored like any other; filter with `==>`.

use vstd::prelude::*;
use crate::query::{lemma_query_view, lemma_slot_view, query_views, slot_views, Query, QueryView, Slot, SlotView};
use crate::span::{DocWords, Wanted};
use crate::text::copy_of;
use crate::tokenize::strings_view;

verus! {

/// A leaf of a query outside a negation, and the boosts above it, from the
/// outermost.
pub struct Leaf {
    pub query: Query,
    pub boosts: Vec<String>,
}

/// What a [`Leaf`] says.
pub type LeafView = (QueryView, Seq<Seq<char>>);

impl View for Leaf {
    type V = LeafView;

    open spec fn view(&self) -> LeafView {
        (self.query.view(), strings_view(self.boosts@))
    }
}

pub open spec fn leaf_views(s: Seq<Leaf>) -> Seq<LeafView> {
    s.map_values(|l: Leaf| l@)
}

/// Lists one after the other, the first `n`.
pub open spec fn chained(ls: Seq<Seq<LeafView>>, n: int) -> Seq<LeafView>
    decreases n,
{
    if n <= 0 {
        Seq::empty()
    } else {
        chained(ls, n - 1) + ls[n - 1]
    }
}

/// The leaves of a query outside negations, with the boosts above each.
pub open spec fn leaves_of(q: QueryView, boosts: Seq<Seq<char>>) -> Seq<LeafView>
    decreases q,
{
    match q {
        QueryView::Not(n) => Seq::empty(),
        QueryView::Boost(inner, w) => leaves_of(*inner, boosts.push(w)),
        QueryView::And(cs) => chained(leaves_each(cs, boosts), cs.len() as int),
        QueryView::Or(cs) => chained(leaves_each(cs, boosts), cs.len() as int),
        QueryView::AtLeast { min, of } => chained(leaves_each(of, boosts), of.len() as int),
        QueryView::Phrase { slots, slop } => chained(leaves_slots(slots, boosts), slots.len() as int),
        QueryView::Near { left, right, gap, ordered } => leaves_of(*left, boosts) + leaves_of(*right, boosts),
        _ => seq![(q, boosts)],
    }
}

/// The leaves of each query.
pub open spec fn leaves_each(cs: Seq<QueryView>, boosts: Seq<Seq<char>>) -> Seq<Seq<LeafView>>
    decreases cs,
{
    Seq::new(cs.len(), |i: int| if 0 <= i < cs.len() { leaves_of(cs[i], boosts) } else { Seq::empty() })
}

/// The leaves of each slot.
pub open spec fn leaves_slots(slots: Seq<SlotView>, boosts: Seq<Seq<char>>) -> Seq<Seq<LeafView>>
    decreases slots,
{
    Seq::new(slots.len(), |i: int| if 0 <= i < slots.len() { chained(leaves_each(slots[i].alts, boosts), slots[i].alts.len() as int) } else { Seq::empty() })
}

/// A query's positive leaves (terms and patterns) and their boosts: the part
/// of a query scores depend on. Build once per query.
pub struct Scorer {
    leaves: Vec<Leaf>,
    wanted: Wanted,
}

impl Scorer {
    pub closed spec fn spec_leaves(&self) -> Seq<LeafView> {
        leaf_views(self.leaves@)
    }

    pub closed spec fn spec_wanted(&self) -> Wanted {
        self.wanted
    }

    pub fn new(q: &Query) -> (r: Scorer)
        ensures
            r.spec_leaves() == leaves_of(q.view(), Seq::empty()),
            r.spec_wanted().wf(),
            r.spec_wanted().counts(),
            forall|t: Seq<char>| #[trigger] r.spec_wanted().wants(t) <==> crate::span::uses(q.view(), t),
            forall|t: Seq<char>| crate::span::asks(q.view(), t) ==> #[trigger] r.spec_wanted().wants(t),
    {
        let mut leaves: Vec<Leaf> = Vec::new();
        let none: Vec<String> = Vec::new();
        proof {
            assert(strings_view(none@) =~= Seq::empty());
            assert(leaf_views(leaves@) =~= Seq::empty());
        }
        collect(q, &none, &mut leaves);
        proof {
            assert(leaf_views(leaves@) =~= leaves_of(q.view(), Seq::empty()));
        }
        Scorer { leaves, wanted: Wanted::counting(q) }
    }

    /// What to read from a document before scoring it:
    /// `DocWords::with(text, analyzer, scorer.wanted())`.
    pub fn wanted(&self) -> (r: &Wanted)
        ensures
            *r == self.spec_wanted(),
    {
        &self.wanted
    }

    /// The leaves.
    pub fn leaves(&self) -> (r: &Vec<Leaf>)
        ensures
            leaf_views(r@) == self.spec_leaves(),
    {
        &self.leaves
    }
}

fn copy_strings(v: &Vec<String>) -> (r: Vec<String>)
    ensures
        strings_view(r@) == strings_view(v@),
{
    let mut out: Vec<String> = Vec::new();
    let mut i: usize = 0;
    while i < v.len()
        invariant
            i <= v@.len(),
            out@.len() == i,
            forall|k: int| 0 <= k < i ==> (#[trigger] out@[k])@ == v@[k]@,
        decreases v@.len() - i,
    {
        out.push(copy_of(v[i].as_str()));
        i = i + 1;
    }
    proof {
        assert(strings_view(out@) =~= strings_view(v@));
    }
    out
}

/// Append a leaf.
fn put_leaf(query: Query, boosts: &Vec<String>, out: &mut Vec<Leaf>)
    ensures
        leaf_views(final(out)@) == leaf_views(old(out)@) + seq![(query.view(), strings_view(boosts@))],
{
    let ghost was = out@;
    out.push(Leaf { query, boosts: copy_strings(boosts) });
    proof {
        assert(leaf_views(out@) =~= leaf_views(was) + seq![(query.view(), strings_view(boosts@))]);
    }
}

/// Append the leaves under `q`, below `boosts`.
fn collect(q: &Query, boosts: &Vec<String>, out: &mut Vec<Leaf>)
    ensures
        leaf_views(final(out)@) == leaf_views(old(out)@) + leaves_of(q.view(), strings_view(boosts@)),
    decreases q,
{
    let ghost bs = strings_view(boosts@);
    let ghost start = leaf_views(out@);
    proof {
        lemma_query_view(*q);
    }
    match q {
        Query::Term(t) => put_leaf(Query::Term(copy_of(t.as_str())), boosts, out),
        Query::Prefix(t) => put_leaf(Query::Prefix(copy_of(t.as_str())), boosts, out),
        Query::Fragment(t) => put_leaf(Query::Fragment(copy_of(t.as_str())), boosts, out),
        Query::Fuzzy(t, k) => put_leaf(Query::Fuzzy(copy_of(t.as_str()), *k), boosts, out),
        Query::Not(_) => {
            proof {
                assert(start + Seq::<LeafView>::empty() =~= start);
            }
        },
        Query::Boost(inner, w) => {
            let mut more: Vec<String> = copy_strings(boosts);
            more.push(copy_of(w.text.as_str()));
            proof {
                assert(strings_view(more@) =~= bs.push(w.text@));
            }
            collect(inner, &more, out);
        },
        Query::And(cs) => {
            collect_all(cs, boosts, out);
        },
        Query::Or(cs) => {
            collect_all(cs, boosts, out);
        },
        Query::AtLeast { min, of } => {
            collect_all(of, boosts, out);
        },
        Query::Phrase { slots, slop } => {
            collect_slots(slots, boosts, out);
        },
        Query::Near { left, right, gap, ordered } => {
            collect(left, boosts, out);
            collect(right, boosts, out);
            proof {
                let (a, b) = (leaves_of(left.view(), bs), leaves_of(right.view(), bs));
                assert(start + a + b =~= start + (a + b));
            }
        },
    }
}

fn collect_all(cs: &Vec<Query>, boosts: &Vec<String>, out: &mut Vec<Leaf>)
    ensures
        leaf_views(final(out)@) == leaf_views(old(out)@) + chained(leaves_each(query_views(cs@), strings_view(boosts@)), cs@.len() as int),
    decreases cs,
{
    let ghost bs = strings_view(boosts@);
    let ghost start = leaf_views(out@);
    let ghost each = leaves_each(query_views(cs@), bs);
    let mut i: usize = 0;
    proof {
        assert(start + chained(each, 0) =~= start);
    }
    while i < cs.len()
        invariant
            i <= cs@.len(),
            bs == strings_view(boosts@),
            each == leaves_each(query_views(cs@), bs),
            leaf_views(out@) == start + chained(each, i as int),
        decreases cs@.len() - i,
    {
        proof {
            assert(decreases_to!(*cs => cs[i as int]));
        }
        collect(&cs[i], boosts, out);
        proof {
            assert(each[i as int] == leaves_of(cs@[i as int].view(), bs));
            assert(start + chained(each, i as int) + each[i as int] =~= start + chained(each, i + 1));
        }
        i = i + 1;
    }
}

fn collect_slots(slots: &Vec<Slot>, boosts: &Vec<String>, out: &mut Vec<Leaf>)
    ensures
        leaf_views(final(out)@) == leaf_views(old(out)@) + chained(leaves_slots(slot_views(slots@), strings_view(boosts@)), slots@.len() as int),
    decreases slots,
{
    let ghost bs = strings_view(boosts@);
    let ghost start = leaf_views(out@);
    let ghost each = leaves_slots(slot_views(slots@), bs);
    let mut i: usize = 0;
    proof {
        assert(start + chained(each, 0) =~= start);
    }
    while i < slots.len()
        invariant
            i <= slots@.len(),
            bs == strings_view(boosts@),
            each == leaves_slots(slot_views(slots@), bs),
            leaf_views(out@) == start + chained(each, i as int),
        decreases slots@.len() - i,
    {
        let s: &Slot = &slots[i];
        proof {
            lemma_slot_view(*s);
            assert(decreases_to!(*slots => slots[i as int]));
            assert(decreases_to!(slots[i as int] => slots[i as int].alts));
        }
        collect_all(&s.alts, boosts, out);
        proof {
            assert(slot_views(slots@)[i as int] == s.view());
            assert(each[i as int] == chained(leaves_each(query_views(s.alts@), bs), s.alts@.len() as int));
            assert(start + chained(each, i as int) + each[i as int] =~= start + chained(each, i + 1));
        }
        i = i + 1;
    }
}

/// What a score reads of a document: each leaf's terms there with how often
/// they occur, and the number of distinct terms.
pub struct DocCounts {
    /// By leaf: the document's terms that it accepts and their occurrences.
    pub leaves: Vec<Vec<(String, u64)>>,
    pub doc_len: usize,
}

impl Scorer {
    /// What scoring `doc` needs.
    pub fn counts(&self, doc: &DocWords) -> (r: DocCounts)
        requires
            doc.wf(),
        ensures
            r.doc_len == doc.spec_distinct(),
            r.leaves@.len() == self.spec_leaves().len(),
            forall|i: int| 0 <= i < r.leaves@.len() ==> counts_ok(#[trigger] r.leaves@[i]@, self.spec_leaves()[i].0, doc.doc()),
    {
        let mut leaves: Vec<Vec<(String, u64)>> = Vec::new();
        let mut i: usize = 0;
        proof {
            assert(self.spec_leaves().len() == self.leaves@.len());
        }
        while i < self.leaves.len()
            invariant
                doc.wf(),
                i <= self.leaves@.len(),
                leaves@.len() == i,
                self.spec_leaves().len() == self.leaves@.len(),
                forall|k: int| 0 <= k < i ==> counts_ok(#[trigger] leaves@[k]@, self.spec_leaves()[k].0, doc.doc()),
            decreases self.leaves@.len() - i,
        {
            let leaf: &Leaf = &self.leaves[i];
            proof {
                assert(self.spec_leaves()[i as int] == leaf@);
            }
            let found: Vec<(String, Vec<u32>)> = doc.leaf_terms(&leaf.query);
            let mut one: Vec<(String, u64)> = Vec::new();
            let mut k: usize = 0;
            while k < found.len()
                invariant
                    k <= found@.len(),
                    one@.len() == k,
                    forall|m: int| 0 <= m < found@.len() ==> found_ok(#[trigger] found@[m], leaf.query.view(), doc.doc()),
                    forall|m: int| 0 <= m < k ==> (#[trigger] one@[m]).0@ == found@[m].0@ && one@[m].1 == found@[m].1@.len(),
                decreases found@.len() - k,
            {
                proof {
                    assert(found_ok(found@[k as int], leaf.query.view(), doc.doc()));
                }
                let n: usize = found[k].1.len();
                one.push((copy_of(found[k].0.as_str()), n as u64));
                k = k + 1;
            }
            proof {
                assert forall|m: int| 0 <= m < one@.len() implies count_ok(#[trigger] one@[m], leaf.query.view(), doc.doc()) by {
                    assert(found_ok(found@[m], leaf.query.view(), doc.doc()));
                    let ps = found@[m].1@;
                    assert(crate::windows::ascends(ps) && ps.len() == one@[m].1 && forall|p: int|
                        #[trigger] crate::windows::positions_of(ps).contains(p) <==> crate::query::stands(QueryView::Term(one@[m].0@), doc.doc(), p));
                }
                assert forall|d: int| 0 <= d < doc.doc().len() && crate::query::accepts(leaf.query.view(), (#[trigger] doc.doc()[d]).0) implies exists|m: int|
                    0 <= m < one@.len() && (#[trigger] one@[m]).0@ == doc.doc()[d].0 by {
                    let m = choose|m: int| 0 <= m < found@.len() && (#[trigger] found@[m]).0@ == doc.doc()[d].0;
                    assert(one@[m].0@ == doc.doc()[d].0);
                }
                assert forall|a: int, b: int| 0 <= a < b < one@.len() implies (#[trigger] one@[a]).0@ != (#[trigger] one@[b]).0@ by {
                    assert(found@[a].0@ != found@[b].0@);
                }
            }
            leaves.push(one);
            i = i + 1;
        }
        DocCounts { leaves, doc_len: doc.distinct_terms() }
    }
}

/// A term that a leaf accepts, with its positions.
pub open spec fn found_ok(e: (String, Vec<u32>), leaf: QueryView, doc: crate::query::Doc) -> bool {
    &&& crate::query::accepts(leaf, e.0@)
    &&& crate::windows::ascends(e.1@)
    &&& e.1@.len() >= 1
    &&& forall|p: int| #[trigger] crate::windows::positions_of(e.1@).contains(p) <==> crate::query::stands(QueryView::Term(e.0@), doc, p)
}

/// A term that a leaf accepts, with how often it occurs.
pub open spec fn count_ok(e: (String, u64), leaf: QueryView, doc: crate::query::Doc) -> bool {
    &&& crate::query::accepts(leaf, e.0@)
    &&& e.1 >= 1
    &&& exists|ps: Seq<u32>| #[trigger] crate::windows::ascends(ps) && ps.len() == e.1 && forall|p: int|
        #[trigger] crate::windows::positions_of(ps).contains(p) <==> crate::query::stands(QueryView::Term(e.0@), doc, p)
}

/// Every term that a leaf accepts, once, with how often it occurs.
pub open spec fn counts_ok(s: Seq<(String, u64)>, leaf: QueryView, doc: crate::query::Doc) -> bool {
    &&& forall|m: int| 0 <= m < s.len() ==> count_ok(#[trigger] s[m], leaf, doc)
    &&& forall|a: int, b: int| 0 <= a < b < s.len() ==> (#[trigger] s[a]).0@ != (#[trigger] s[b]).0@
    &&& forall|d: int| 0 <= d < doc.len() && crate::query::accepts(leaf, (#[trigger] doc[d]).0) ==> exists|m: int|
        0 <= m < s.len() && (#[trigger] s[m]).0@ == doc[d].0
}

// ---------------------------------------------------------------------------
// Laws
// ---------------------------------------------------------------------------

/// Leaves below further boosts, which stand before their own.
pub open spec fn below(boosts: Seq<Seq<char>>, ls: Seq<LeafView>) -> Seq<LeafView> {
    Seq::new(ls.len(), |i: int| (ls[i].0, boosts + ls[i].1))
}

proof fn lemma_chained_below(a: Seq<Seq<LeafView>>, b: Seq<Seq<LeafView>>, boosts: Seq<Seq<char>>, n: int)
    requires
        0 <= n <= a.len(),
        a.len() == b.len(),
        forall|i: int| 0 <= i < n ==> #[trigger] a[i] == below(boosts, b[i]),
    ensures
        chained(a, n) == below(boosts, chained(b, n)),
    decreases n,
{
    if n > 0 {
        lemma_chained_below(a, b, boosts, n - 1);
        assert(a[n - 1] == below(boosts, b[n - 1]));
    }
    assert(chained(a, n) =~= below(boosts, chained(b, n)));
}

proof fn lemma_each_below(cs: Seq<QueryView>, boosts: Seq<Seq<char>>)
    requires
        forall|i: int| 0 <= i < cs.len() ==> leaves_of(#[trigger] cs[i], boosts) == below(boosts, leaves_of(cs[i], Seq::empty())),
    ensures
        chained(leaves_each(cs, boosts), cs.len() as int) == below(boosts, chained(leaves_each(cs, Seq::empty()), cs.len() as int)),
{
    let (a, b) = (leaves_each(cs, boosts), leaves_each(cs, Seq::empty()));
    assert forall|i: int| 0 <= i < cs.len() implies #[trigger] a[i] == below(boosts, b[i]) by {
        assert(leaves_of(cs[i], boosts) == below(boosts, leaves_of(cs[i], Seq::empty())));
    }
    lemma_chained_below(a, b, boosts, cs.len() as int);
}

/// What boosts a part of a query boosts each of its leaves: below boosts the
/// leaves are the same, with those boosts before their own.
pub proof fn boosts_reach_every_leaf(q: QueryView, boosts: Seq<Seq<char>>)
    ensures
        leaves_of(q, boosts) == below(boosts, leaves_of(q, Seq::empty())),
    decreases q,
{
    let none = Seq::<Seq<char>>::empty();
    match q {
        QueryView::Not(n) => {
            assert(leaves_of(q, boosts) =~= below(boosts, leaves_of(q, none)));
        },
        QueryView::Boost(inner, w) => {
            boosts_reach_every_leaf(*inner, boosts.push(w));
            boosts_reach_every_leaf(*inner, none.push(w));
            let own = leaves_of(*inner, none);
            assert forall|i: int| 0 <= i < own.len() implies boosts.push(w) + (#[trigger] own[i]).1 =~= boosts + (none.push(w) + own[i].1) by {
            }
            assert(leaves_of(q, boosts) =~= below(boosts, leaves_of(q, none)));
        },
        QueryView::And(cs) => {
            assert forall|i: int| 0 <= i < cs.len() implies leaves_of(#[trigger] cs[i], boosts) == below(boosts, leaves_of(cs[i], none)) by {
                boosts_reach_every_leaf(cs[i], boosts);
            }
            lemma_each_below(cs, boosts);
        },
        QueryView::Or(cs) => {
            assert forall|i: int| 0 <= i < cs.len() implies leaves_of(#[trigger] cs[i], boosts) == below(boosts, leaves_of(cs[i], none)) by {
                boosts_reach_every_leaf(cs[i], boosts);
            }
            lemma_each_below(cs, boosts);
        },
        QueryView::AtLeast { min, of } => {
            assert forall|i: int| 0 <= i < of.len() implies leaves_of(#[trigger] of[i], boosts) == below(boosts, leaves_of(of[i], none)) by {
                boosts_reach_every_leaf(of[i], boosts);
            }
            lemma_each_below(of, boosts);
        },
        QueryView::Phrase { slots, slop } => {
            let (a, b) = (leaves_slots(slots, boosts), leaves_slots(slots, none));
            assert forall|k: int| 0 <= k < slots.len() implies #[trigger] a[k] == below(boosts, b[k]) by {
                let alts = slots[k].alts;
                assert forall|i: int| 0 <= i < alts.len() implies leaves_of(#[trigger] alts[i], boosts) == below(boosts, leaves_of(alts[i], none)) by {
                    boosts_reach_every_leaf(slots[k].alts[i], boosts);
                }
                lemma_each_below(alts, boosts);
            }
            lemma_chained_below(a, b, boosts, slots.len() as int);
        },
        QueryView::Near { left, right, gap, ordered } => {
            boosts_reach_every_leaf(*left, boosts);
            boosts_reach_every_leaf(*right, boosts);
            assert(leaves_of(q, boosts) =~= below(boosts, leaves_of(q, none)));
        },
        _ => {
            assert(boosts + none =~= boosts);
            assert(leaves_of(q, boosts) =~= below(boosts, leaves_of(q, none)));
        },
    }
}

/// `q^w` has the leaves of `q`, each with the boost `w` once more, as the
/// outermost.
pub proof fn boost_adds_to_leaves(q: QueryView, w: Seq<char>)
    ensures
        leaves_of(QueryView::Boost(Box::new(q), w), Seq::empty()).len() == leaves_of(q, Seq::empty()).len(),
        forall|i: int|
            0 <= i < leaves_of(q, Seq::empty()).len() ==> (#[trigger] leaves_of(QueryView::Boost(Box::new(q), w), Seq::empty())[i]) == (
                leaves_of(q, Seq::empty())[i].0,
                seq![w] + leaves_of(q, Seq::empty())[i].1,
            ),
{
    let none = Seq::<Seq<char>>::empty();
    let b = QueryView::Boost(Box::new(q), w);
    assert(leaves_of(b, none) == leaves_of(*b->Boost_0, none.push(w)));
    boosts_reach_every_leaf(q, none.push(w));
    assert(none.push(w) =~= seq![w]);
}

/// `leaf` stands in `q` outside negations, with the boosts `ws` on the way to
/// it.
pub open spec fn stands_in(q: QueryView, leaf: QueryView, ws: Seq<Seq<char>>) -> bool
    decreases q,
{
    match q {
        QueryView::Not(n) => false,
        QueryView::Boost(inner, w) => ws.len() > 0 && ws[0] == w && stands_in(*inner, leaf, ws.skip(1)),
        QueryView::And(cs) => exists|i: int| 0 <= i < cs.len() && stands_in(#[trigger] cs[i], leaf, ws),
        QueryView::Or(cs) => exists|i: int| 0 <= i < cs.len() && stands_in(#[trigger] cs[i], leaf, ws),
        QueryView::AtLeast { min, of } => exists|i: int| 0 <= i < of.len() && stands_in(#[trigger] of[i], leaf, ws),
        QueryView::Phrase { slots, slop } => exists|k: int, i: int|
            0 <= k < slots.len() && 0 <= i < slots[k].alts.len() && stands_in(#[trigger] slots[k].alts[i], leaf, ws),
        QueryView::Near { left, right, gap, ordered } => stands_in(*left, leaf, ws) || stands_in(*right, leaf, ws),
        _ => leaf == q && ws.len() == 0,
    }
}

proof fn lemma_chained_has(ls: Seq<Seq<LeafView>>, n: int, l: LeafView)
    requires
        0 <= n <= ls.len(),
    ensures
        chained(ls, n).contains(l) <==> exists|i: int| 0 <= i < n && (#[trigger] ls[i]).contains(l),
    decreases n,
{
    if n > 0 {
        lemma_chained_has(ls, n - 1, l);
        let (a, b) = (chained(ls, n - 1), ls[n - 1]);
        let c = chained(ls, n);
        assert(c == a + b);
        if c.contains(l) {
            let k = c.index_of(l);
            if k < a.len() {
                assert(a[k] == l);
                assert(a.contains(l));
            } else {
                assert(b[k - a.len()] == l);
                assert(ls[n - 1].contains(l));
            }
        }
        if a.contains(l) {
            assert(c[a.index_of(l)] == l);
        }
        if b.contains(l) {
            assert(c[a.len() + b.index_of(l)] == l);
        }
        if exists|i: int| 0 <= i < n && (#[trigger] ls[i]).contains(l) {
            let i = choose|i: int| 0 <= i < n && (#[trigger] ls[i]).contains(l);
            if i < n - 1 {
                assert(a.contains(l));
            }
        }
        if exists|i: int| 0 <= i < n - 1 && (#[trigger] ls[i]).contains(l) {
            let i = choose|i: int| 0 <= i < n - 1 && (#[trigger] ls[i]).contains(l);
            assert(0 <= i < n && ls[i].contains(l));
        }
    }
}

/// The leaves of a query are the terms and patterns that stand in it outside
/// negations, each with the boosts on the way from the root to it.
pub proof fn leaves_stand_in_query(q: QueryView, leaf: QueryView, ws: Seq<Seq<char>>)
    ensures
        leaves_of(q, Seq::empty()).contains((leaf, ws)) <==> stands_in(q, leaf, ws),
    decreases q,
{
    let none = Seq::<Seq<char>>::empty();
    let l = (leaf, ws);
    match q {
        QueryView::Not(n) => {},
        QueryView::Boost(inner, w) => {
            boost_adds_to_leaves(*inner, w);
            assert(q == QueryView::Boost(Box::new(*inner), w));
            let (own, more) = (leaves_of(*inner, none), leaves_of(q, none));
            leaves_stand_in_query(*inner, leaf, ws.skip(1));
            if more.contains(l) {
                let i = more.index_of(l);
                assert(more[i].0 == own[i].0);
                assert(ws == seq![w] + own[i].1);
                assert(ws.skip(1) =~= own[i].1);
                assert(own[i] == (leaf, ws.skip(1)));
                assert(own.contains((leaf, ws.skip(1))));
            }
            if stands_in(q, leaf, ws) {
                let i = own.index_of((leaf, ws.skip(1)));
                assert(own[i] == (leaf, ws.skip(1)));
                assert(more[i].0 == own[i].0);
                assert(seq![w] + ws.skip(1) =~= ws);
                assert(more[i] == l);
            }
        },
        QueryView::And(cs) => {
            lemma_each_has(cs, leaf, ws);
            assert forall|i: int| 0 <= i < cs.len() implies (leaves_of(#[trigger] cs[i], none).contains(l) <==> stands_in(cs[i], leaf, ws)) by {
                leaves_stand_in_query(cs[i], leaf, ws);
            }
            lemma_either_way(cs, leaf, ws);
        },
        QueryView::Or(cs) => {
            lemma_each_has(cs, leaf, ws);
            assert forall|i: int| 0 <= i < cs.len() implies (leaves_of(#[trigger] cs[i], none).contains(l) <==> stands_in(cs[i], leaf, ws)) by {
                leaves_stand_in_query(cs[i], leaf, ws);
            }
            lemma_either_way(cs, leaf, ws);
        },
        QueryView::AtLeast { min, of } => {
            lemma_each_has(of, leaf, ws);
            assert forall|i: int| 0 <= i < of.len() implies (leaves_of(#[trigger] of[i], none).contains(l) <==> stands_in(of[i], leaf, ws)) by {
                leaves_stand_in_query(of[i], leaf, ws);
            }
            lemma_either_way(of, leaf, ws);
        },
        QueryView::Phrase { slots, slop } => {
            let ls = leaves_slots(slots, none);
            lemma_chained_has(ls, slots.len() as int, l);
            assert forall|k: int| 0 <= k < slots.len() implies ((#[trigger] ls[k]).contains(l) <==> exists|i: int|
                0 <= i < slots[k].alts.len() && stands_in(#[trigger] slots[k].alts[i], leaf, ws)) by {
                let alts = slots[k].alts;
                lemma_each_has(alts, leaf, ws);
                assert forall|i: int| 0 <= i < alts.len() implies (leaves_of(#[trigger] alts[i], none).contains(l) <==> stands_in(alts[i], leaf, ws)) by {
                    leaves_stand_in_query(slots[k].alts[i], leaf, ws);
                }
                lemma_either_way(alts, leaf, ws);
                if ls[k].contains(l) {
                    let i = choose|i: int| 0 <= i < alts.len() && stands_in(#[trigger] alts[i], leaf, ws);
                    assert(stands_in(slots[k].alts[i], leaf, ws));
                }
                if exists|i: int| 0 <= i < slots[k].alts.len() && stands_in(#[trigger] slots[k].alts[i], leaf, ws) {
                    let i = choose|i: int| 0 <= i < slots[k].alts.len() && stands_in(#[trigger] slots[k].alts[i], leaf, ws);
                    assert(stands_in(alts[i], leaf, ws));
                }
            }
            if chained(ls, slots.len() as int).contains(l) {
                let k = choose|k: int| 0 <= k < slots.len() && (#[trigger] ls[k]).contains(l);
                let i = choose|i: int| 0 <= i < slots[k].alts.len() && stands_in(#[trigger] slots[k].alts[i], leaf, ws);
                assert(stands_in(slots[k].alts[i], leaf, ws));
            }
            if stands_in(q, leaf, ws) {
                let (k, i) = choose|k: int, i: int|
                    0 <= k < slots.len() && 0 <= i < slots[k].alts.len() && stands_in(#[trigger] slots[k].alts[i], leaf, ws);
                assert(ls[k].contains(l));
            }
        },
        QueryView::Near { left, right, gap, ordered } => {
            leaves_stand_in_query(*left, leaf, ws);
            leaves_stand_in_query(*right, leaf, ws);
            let (a, b) = (leaves_of(*left, none), leaves_of(*right, none));
            let c = a + b;
            if c.contains(l) {
                let k = c.index_of(l);
                if k < a.len() {
                    assert(a[k] == l);
                } else {
                    assert(b[k - a.len()] == l);
                }
            }
            if a.contains(l) {
                assert(c[a.index_of(l)] == l);
            }
            if b.contains(l) {
                assert(c[a.len() + b.index_of(l)] == l);
            }
        },
        _ => {
            let one = leaves_of(q, none);
            assert(one[0] == (q, none));
            if one.contains(l) {
                assert(one.index_of(l) == 0);
            }
            if ws.len() == 0 {
                assert(ws =~= none);
            }
        },
    }
}

proof fn lemma_each_has(cs: Seq<QueryView>, leaf: QueryView, ws: Seq<Seq<char>>)
    ensures
        chained(leaves_each(cs, Seq::empty()), cs.len() as int).contains((leaf, ws)) <==> exists|i: int|
            0 <= i < cs.len() && leaves_of(#[trigger] cs[i], Seq::empty()).contains((leaf, ws)),
{
    let none = Seq::<Seq<char>>::empty();
    let l = (leaf, ws);
    let ls = leaves_each(cs, none);
    lemma_chained_has(ls, cs.len() as int, l);
    if exists|i: int| 0 <= i < cs.len() && (#[trigger] ls[i]).contains(l) {
        let i = choose|i: int| 0 <= i < cs.len() && (#[trigger] ls[i]).contains(l);
        assert(leaves_of(cs[i], none).contains(l));
    }
    if exists|i: int| 0 <= i < cs.len() && leaves_of(#[trigger] cs[i], none).contains(l) {
        let i = choose|i: int| 0 <= i < cs.len() && leaves_of(#[trigger] cs[i], none).contains(l);
        assert(ls[i].contains(l));
    }
}

proof fn lemma_either_way(cs: Seq<QueryView>, leaf: QueryView, ws: Seq<Seq<char>>)
    requires
        forall|i: int| 0 <= i < cs.len() ==> (leaves_of(#[trigger] cs[i], Seq::empty()).contains((leaf, ws)) <==> stands_in(cs[i], leaf, ws)),
    ensures
        (exists|i: int| 0 <= i < cs.len() && leaves_of(#[trigger] cs[i], Seq::empty()).contains((leaf, ws))) <==> exists|i: int|
            0 <= i < cs.len() && stands_in(#[trigger] cs[i], leaf, ws),
{
    if exists|i: int| 0 <= i < cs.len() && leaves_of(#[trigger] cs[i], Seq::empty()).contains((leaf, ws)) {
        let i = choose|i: int| 0 <= i < cs.len() && leaves_of(#[trigger] cs[i], Seq::empty()).contains((leaf, ws));
        assert(stands_in(cs[i], leaf, ws));
    }
    if exists|i: int| 0 <= i < cs.len() && stands_in(#[trigger] cs[i], leaf, ws) {
        let i = choose|i: int| 0 <= i < cs.len() && stands_in(#[trigger] cs[i], leaf, ws);
        assert(leaves_of(cs[i], Seq::empty()).contains((leaf, ws)));
    }
}

} // verus!
