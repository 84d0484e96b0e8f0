//! Reference engine: a textbook inverted index with *uncompressed* sorted
//! posting arrays (tid keys as `u64`) and merge / galloping set operations.
//! Built independently of the compressed postings, so it doubles as a
//! correctness oracle at full corpus scale.

use vstd::prelude::*;
use crate::drive::is_listing;
use crate::index::{buildable, docs_view, search_is_naive_evaluation, Index};
use crate::plan::{lemma_plan_parts, lemma_plan_view, plan_accepts, plan_matches, plan_views, some_accepted, Plan, PlanView};
use crate::segment::{docs_ascend, runnable, DocTerms};
use crate::terms::TermTable;
use crate::text::fits;
use crate::tid::{key_preserves_order, Tid};
use crate::tokenize::{strings_view, terms_of, Analyzer};

verus! {

/// Numbers in ascending order, none twice.
pub open spec fn rising(s: Seq<u64>) -> bool {
    forall|i: int, j: int| 0 <= i < j < s.len() ==> #[trigger] s[i] < #[trigger] s[j]
}

/// Some document with this key matches.
pub open spec fn key_matches(docs: Seq<DocTerms>, p: PlanView, k: u64) -> bool {
    exists|i: int| 0 <= i < docs.len() && (#[trigger] docs[i]).0.spec_key() == k && plan_matches(p, docs[i].1)
}

/// The keys of exactly the documents that match, in order.
pub open spec fn lists(s: Seq<u64>, docs: Seq<DocTerms>, p: PlanView) -> bool {
    &&& rising(s)
    &&& forall|k: u64| #[trigger] s.contains(k) <==> key_matches(docs, p, k)
}

/// Valid tuples in heap order.
pub open spec fn docs_ok(docs: Seq<DocTerms>) -> bool {
    &&& docs_ascend(docs)
    &&& forall|i: int| 0 <= i < docs.len() ==> (#[trigger] docs[i]).0.valid()
}

/// A plan without empty conjunctions and disjunctions.
pub open spec fn has_parts(p: PlanView) -> bool
    decreases p,
{
    match p {
        PlanView::And(cs) => cs.len() >= 1 && forall|i: int| 0 <= i < cs.len() ==> has_parts(#[trigger] cs[i]),
        PlanView::Or(cs) => cs.len() >= 1 && forall|i: int| 0 <= i < cs.len() ==> has_parts(#[trigger] cs[i]),
        PlanView::AndNot(a, b) => has_parts(*a) && has_parts(*b),
        PlanView::Recheck(a) => has_parts(*a),
        _ => true,
    }
}

proof fn lemma_has_parts(cs: Seq<PlanView>)
    ensures
        has_parts(PlanView::And(cs)) == (cs.len() >= 1 && forall|i: int| 0 <= i < cs.len() ==> has_parts(#[trigger] cs[i])),
        has_parts(PlanView::Or(cs)) == (cs.len() >= 1 && forall|i: int| 0 <= i < cs.len() ==> has_parts(#[trigger] cs[i])),
{
    let (a, o) = (PlanView::And(cs), PlanView::Or(cs));
    assert(a->And_0 == cs && o->Or_0 == cs);
    assert(has_parts(a) == (a->And_0.len() >= 1 && forall|i: int| 0 <= i < a->And_0.len() ==> has_parts(#[trigger] a->And_0[i])));
    assert(has_parts(o) == (o->Or_0.len() >= 1 && forall|i: int| 0 <= i < o->Or_0.len() ==> has_parts(#[trigger] o->Or_0[i])));
}

/// No two documents share a key.
proof fn lemma_one_doc(docs: Seq<DocTerms>, i: int, j: int)
    requires
        docs_ok(docs),
        0 <= i < docs.len(),
        0 <= j < docs.len(),
        docs[i].0.spec_key() == docs[j].0.spec_key(),
    ensures
        i == j,
{
    key_preserves_order(docs[i].0, docs[j].0);
    if i < j {
        assert(docs[i].0.before(docs[j].0));
    }
    if j < i {
        assert(docs[j].0.before(docs[i].0));
    }
}

/// The reference engine.
pub struct Baseline {
    terms: TermTable,
    /// By term number.
    postings: Vec<Vec<u64>>,
    docs: Ghost<Seq<DocTerms>>,
}

impl Baseline {
    /// The documents it was built from.
    pub closed spec fn docs(&self) -> Seq<DocTerms> {
        self.docs@
    }

    pub closed spec fn wf(&self) -> bool {
        &&& self.terms.wf()
        &&& docs_ok(self.docs@)
        &&& table_ok(self.terms.names(), self.postings@, self.docs@)
    }

    /// Build from documents in tid order.
    pub fn build(docs: &Vec<(Tid, String)>) -> (r: Self)
        requires
            buildable(docs@),
        ensures
            r.wf(),
            r.docs() == docs_view(docs@),
    {
        let ghost dv = docs_view(docs@);
        let mut analyzer: Analyzer = Analyzer::new();
        let mut terms: TermTable = TermTable::new();
        let mut postings: Vec<Vec<u64>> = Vec::new();
        let mut i: usize = 0;
        proof {
            assert(dv.take(0) =~= Seq::empty());
            assert forall|k: int| 0 <= k < dv.len() implies (#[trigger] dv[k]).0.valid() by {
                assert(docs@[k].0.valid());
            }
        }
        while i < docs.len()
            invariant
                buildable(docs@),
                dv == docs_view(docs@),
                docs_ok(dv),
                i <= docs@.len(),
                terms.wf(),
                table_ok(terms.names(), postings@, dv.take(i as int)),
            decreases docs@.len() - i,
        {
            let tid: Tid = docs[i].0;
            proof {
                assert(docs@[i as int].0.valid() && fits(docs@[i as int].1@));
                assert(dv[i as int] == (tid, terms_of(docs@[i as int].1@).to_set()));
            }
            let key: u64 = tid.key();
            let words: Vec<String> = analyzer.terms(docs[i].1.as_str());
            let ghost all = strings_view(words@);
            let mut j: usize = 0;
            proof {
                assert(all.take(0) =~= Seq::empty());
                lemma_part_none(terms.names(), postings@, dv, i as int);
            }
            while j < words.len()
                invariant
                    i < dv.len(),
                    docs_ok(dv),
                    j <= words@.len(),
                    all == strings_view(words@),
                    terms.wf(),
                    key == dv[i as int].0.spec_key(),
                    part_ok(terms.names(), postings@, dv, i as int, all.take(j as int).to_set()),
                decreases words@.len() - j,
            {
                let ghost names = terms.names();
                let ghost lists0 = postings@;
                let ghost t = all[j as int];
                proof {
                    assert(t == words@[j as int]@);
                    terms.lemma_distinct();
                }
                let id: usize = terms.intern(words[j].as_str());
                if id == postings.len() {
                    let mut l: Vec<u64> = Vec::new();
                    l.push(key);
                    postings.push(l);
                } else {
                    let n: usize = postings[id].len();
                    let there: bool = n > 0 && postings[id][n - 1] == key;
                    if !there {
                        let mut l: Vec<u64> = Vec::new();
                        std::mem::swap(&mut l, &mut postings[id]);
                        l.push(key);
                        postings[id] = l;
                    }
                }
                proof {
                    assert(all.take(j + 1) =~= all.take(j as int).push(t));
                    assert(all.take(j + 1).to_set() =~= all.take(j as int).to_set().insert(t)) by {
                        lemma_push_set(all.take(j as int), t);
                    }
                    lemma_part_step(names, lists0, terms.names(), postings@, dv, i as int, all.take(j as int).to_set(), t, id as int, key);
                }
                j = j + 1;
            }
            proof {
                assert(all.take(j as int) =~= all);
                lemma_part_all(terms.names(), postings@, dv, i as int);
            }
            i = i + 1;
        }
        proof {
            assert(dv.take(i as int) =~= dv);
        }
        Baseline { terms, postings, docs: Ghost(dv) }
    }

    /// Bytes of the posting arrays.
    pub fn bytes(&self) -> (r: usize)
        requires
            postings_sum(self.lists_of(), self.lists_of().len() as int) * 8 <= usize::MAX,
        ensures
            r == postings_sum(self.lists_of(), self.lists_of().len() as int) * 8,
    {
        let mut n: usize = 0;
        let mut i: usize = 0;
        while i < self.postings.len()
            invariant
                i <= self.postings@.len(),
                postings_sum(self.postings@, self.postings@.len() as int) * 8 <= usize::MAX,
                n == postings_sum(self.postings@, i as int) * 8,
            decreases self.postings@.len() - i,
        {
            proof {
                lemma_sum_mono(self.postings@, i + 1, self.postings@.len() as int);
                lemma_sum_mono(self.postings@, i as int, i as int);
            }
            n = n + self.postings[i].len() * 8;
            i = i + 1;
        }
        n
    }

    /// The posting arrays, by term number.
    pub closed spec fn lists_of(&self) -> Seq<Vec<u64>> {
        self.postings@
    }

    /// Union of the postings of every term that `p` accepts (a full scan).
    fn union_where(&self, p: &Plan) -> (r: Vec<u64>)
        requires
            self.wf(),
            p.view() is Prefix || p.view() is Fragment || p.view() is Fuzzy,
        ensures
            lists(r@, self.docs(), p.view()),
    {
        let ghost pv = p.view();
        let ghost docs = self.docs@;
        let mut acc: Vec<u64> = Vec::new();
        let mut i: usize = 0;
        while i < self.postings.len()
            invariant
                self.wf(),
                pv == p.view(),
                pv is Prefix || pv is Fragment || pv is Fuzzy,
                docs == self.docs@,
                i <= self.postings@.len(),
                rising(acc@),
                forall|k: u64| #[trigger] acc@.contains(k) <==> exists|x: int|
                    0 <= x < i && plan_accepts(pv, #[trigger] self.terms.names()[x]) && self.postings@[x]@.contains(k),
            decreases self.postings@.len() - i,
        {
            let ghost was = acc@;
            proof {
                assert(list_ok(self.terms.names()[i as int], self.postings@[i as int]@, docs));
            }
            let hit: bool = crate::plan::accepts_term(p, self.terms.name(i));
            if hit {
                acc = union(acc.as_slice(), self.postings[i].as_slice());
            }
            proof {
                assert forall|k: u64| #[trigger] acc@.contains(k) <==> exists|x: int|
                    0 <= x < i + 1 && plan_accepts(pv, #[trigger] self.terms.names()[x]) && self.postings@[x]@.contains(k) by {
                    if was.contains(k) {
                        let x = choose|x: int| 0 <= x < i && plan_accepts(pv, #[trigger] self.terms.names()[x]) && self.postings@[x]@.contains(k);
                        assert(0 <= x < i + 1 && plan_accepts(pv, self.terms.names()[x]) && self.postings@[x]@.contains(k));
                    }
                    if exists|x: int| 0 <= x < i + 1 && plan_accepts(pv, #[trigger] self.terms.names()[x]) && self.postings@[x]@.contains(k) {
                        let x = choose|x: int|
                            0 <= x < i + 1 && plan_accepts(pv, #[trigger] self.terms.names()[x]) && self.postings@[x]@.contains(k);
                        if x < i {
                            assert(0 <= x < i && plan_accepts(pv, self.terms.names()[x]) && self.postings@[x]@.contains(k));
                        }
                    }
                    if hit && self.postings@[i as int]@.contains(k) {
                        assert(0 <= i < i + 1 && plan_accepts(pv, self.terms.names()[i as int]));
                    }
                }
            }
            i = i + 1;
        }
        proof {
            let names = self.terms.names();
            assert forall|k: u64| #[trigger] acc@.contains(k) <==> key_matches(docs, pv, k) by {
                if acc@.contains(k) {
                    let x = choose|x: int| 0 <= x < i && plan_accepts(pv, #[trigger] names[x]) && self.postings@[x]@.contains(k);
                    assert(list_ok(names[x], self.postings@[x]@, docs));
                    assert(key_has(docs, names[x], k));
                    let d = choose|d: int| 0 <= d < docs.len() && (#[trigger] docs[d]).0.spec_key() == k && docs[d].1.contains(names[x]);
                    assert(some_accepted(pv, docs[d].1));
                    assert(plan_matches(pv, docs[d].1));
                }
                if key_matches(docs, pv, k) {
                    let d = choose|d: int| 0 <= d < docs.len() && (#[trigger] docs[d]).0.spec_key() == k && plan_matches(pv, docs[d].1);
                    assert(some_accepted(pv, docs[d].1));
                    let t = choose|t: Seq<char>| #[trigger] docs[d].1.contains(t) && plan_accepts(pv, t);
                    assert(names.contains(t));
                    let x = names.index_of(t);
                    assert(key_has(docs, t, k));
                    assert(list_ok(names[x], self.postings@[x]@, docs));
                    assert(plan_accepts(pv, names[x]) && self.postings@[x]@.contains(k));
                }
            }
        }
        acc
    }

    /// The keys of the documents that match, in order.
    pub fn eval(&self, plan: &Plan) -> (r: Vec<u64>)
        requires
            self.wf(),
            has_parts(plan.view()),
        ensures
            lists(r@, self.docs(), plan.view()),
        decreases plan,
    {
        let ghost docs = self.docs@;
        proof {
            lemma_plan_view(*plan);
        }
        match plan {
            Plan::Term(t) => {
                proof {
                    lemma_term_lists(self.terms.names(), self.postings@, docs, t@);
                }
                match self.terms.find(t.as_str()) {
                    Some(i) => copy_keys(self.postings[i].as_slice()),
                    None => Vec::new(),
                }
            },
            Plan::Prefix(_) | Plan::Fragment(_) | Plan::Fuzzy(_, _) => self.union_where(plan),
            Plan::And(cs) => {
                proof {
                    lemma_has_parts(plan_views(cs@));
                }
                let sets: Vec<Vec<u64>> = self.eval_all(cs);
                let mut small: usize = 0;
                let mut i: usize = 1;
                while i < sets.len()
                    invariant
                        small < sets@.len(),
                        1 <= i <= sets@.len(),
                    decreases sets@.len() - i,
                {
                    if sets[i].len() < sets[small].len() {
                        small = i;
                    }
                    i = i + 1;
                }
                let ghost views = plan_views(cs@);
                let mut acc: Vec<u64> = copy_keys(sets[small].as_slice());
                let mut i: usize = 0;
                while i < sets.len()
                    invariant
                        small < sets@.len(),
                        i <= sets@.len(),
                        sets@.len() == views.len(),
                        forall|x: int| 0 <= x < sets@.len() ==> lists((#[trigger] sets@[x])@, docs, views[x]),
                        rising(acc@),
                        forall|k: u64| #[trigger] acc@.contains(k) <==> sets@[small as int]@.contains(k) && forall|x: int|
                            0 <= x < i ==> (#[trigger] sets@[x])@.contains(k),
                    decreases sets@.len() - i,
                {
                    let ghost was = acc@;
                    proof {
                        assert(lists(sets@[i as int]@, docs, views[i as int]));
                    }
                    acc = intersect(acc.as_slice(), sets[i].as_slice());
                    proof {
                        assert forall|k: u64| #[trigger] acc@.contains(k) <==> sets@[small as int]@.contains(k) && forall|x: int|
                            0 <= x < i + 1 ==> (#[trigger] sets@[x])@.contains(k) by {
                            assert(acc@.contains(k) <==> was.contains(k) && sets@[i as int]@.contains(k));
                        }
                    }
                    i = i + 1;
                }
                proof {
                    lemma_all_lists(sets@, views, docs, acc@, small as int);
                }
                acc
            },
            Plan::Or(cs) => {
                proof {
                    lemma_has_parts(plan_views(cs@));
                }
                let ghost views = plan_views(cs@);
                let sets: Vec<Vec<u64>> = self.eval_all(cs);
                let mut acc: Vec<u64> = Vec::new();
                let mut i: usize = 0;
                while i < sets.len()
                    invariant
                        i <= sets@.len(),
                        sets@.len() == views.len(),
                        forall|x: int| 0 <= x < sets@.len() ==> lists((#[trigger] sets@[x])@, docs, views[x]),
                        rising(acc@),
                        forall|k: u64| #[trigger] acc@.contains(k) <==> exists|x: int| 0 <= x < i && (#[trigger] sets@[x])@.contains(k),
                    decreases sets@.len() - i,
                {
                    let ghost was = acc@;
                    proof {
                        assert(lists(sets@[i as int]@, docs, views[i as int]));
                    }
                    acc = union(acc.as_slice(), sets[i].as_slice());
                    proof {
                        assert forall|k: u64| #[trigger] acc@.contains(k) <==> exists|x: int| 0 <= x < i + 1 && (#[trigger] sets@[x])@.contains(k) by {
                            assert(acc@.contains(k) <==> was.contains(k) || sets@[i as int]@.contains(k));
                            if was.contains(k) {
                                let x = choose|x: int| 0 <= x < i && (#[trigger] sets@[x])@.contains(k);
                                assert(0 <= x < i + 1 && sets@[x]@.contains(k));
                            }
                            if exists|x: int| 0 <= x < i + 1 && (#[trigger] sets@[x])@.contains(k) {
                                let x = choose|x: int| 0 <= x < i + 1 && (#[trigger] sets@[x])@.contains(k);
                                if x < i {
                                    assert(0 <= x < i && sets@[x]@.contains(k));
                                }
                            }
                        }
                    }
                    i = i + 1;
                }
                proof {
                    lemma_any_lists(sets@, views, docs, acc@);
                }
                acc
            },
            Plan::AndNot(p, n) => {
                let a: Vec<u64> = self.eval(p);
                let b: Vec<u64> = self.eval(n);
                let r: Vec<u64> = difference(a.as_slice(), b.as_slice());
                proof {
                    lemma_not_lists(a@, b@, r@, docs, p.view(), n.view());
                }
                r
            },
            Plan::Recheck(p) => {
                let r: Vec<u64> = self.eval(p);
                proof {
                    assert forall|k: u64| key_matches(docs, plan.view(), k) <==> key_matches(docs, p.view(), k) by {
                        if key_matches(docs, plan.view(), k) {
                            let i = choose|i: int| 0 <= i < docs.len() && (#[trigger] docs[i]).0.spec_key() == k && plan_matches(plan.view(), docs[i].1);
                            assert(docs[i].0.spec_key() == k && plan_matches(p.view(), docs[i].1));
                        }
                        if key_matches(docs, p.view(), k) {
                            let i = choose|i: int| 0 <= i < docs.len() && (#[trigger] docs[i]).0.spec_key() == k && plan_matches(p.view(), docs[i].1);
                            assert(docs[i].0.spec_key() == k && plan_matches(plan.view(), docs[i].1));
                        }
                    }
                }
                r
            },
        }
    }

    fn eval_all(&self, cs: &Vec<Plan>) -> (r: Vec<Vec<u64>>)
        requires
            self.wf(),
            forall|i: int| 0 <= i < plan_views(cs@).len() ==> has_parts(#[trigger] plan_views(cs@)[i]),
        ensures
            r@.len() == cs@.len(),
            forall|x: int| 0 <= x < r@.len() ==> lists((#[trigger] r@[x])@, self.docs(), plan_views(cs@)[x]),
        decreases cs,
    {
        let mut out: Vec<Vec<u64>> = Vec::new();
        let mut i: usize = 0;
        while i < cs.len()
            invariant
                self.wf(),
                i <= cs@.len(),
                out@.len() == i,
                forall|k: int| 0 <= k < plan_views(cs@).len() ==> has_parts(#[trigger] plan_views(cs@)[k]),
                forall|x: int| 0 <= x < i ==> lists((#[trigger] out@[x])@, self.docs(), plan_views(cs@)[x]),
            decreases cs@.len() - i,
        {
            proof {
                assert(has_parts(plan_views(cs@)[i as int]));
                assert(decreases_to!(*cs => cs[i as int]));
            }
            out.push(self.eval(&cs[i]));
            i = i + 1;
        }
        out
    }
}

/// Some document with this key has the term.
pub open spec fn key_has(docs: Seq<DocTerms>, t: Seq<char>, k: u64) -> bool {
    exists|i: int| 0 <= i < docs.len() && (#[trigger] docs[i]).0.spec_key() == k && docs[i].1.contains(t)
}

/// The posting array of a term.
pub open spec fn list_ok(t: Seq<char>, l: Seq<u64>, docs: Seq<DocTerms>) -> bool {
    rising(l) && forall|k: u64| #[trigger] l.contains(k) <==> key_has(docs, t, k)
}

/// The posting arrays of the documents' terms.
spec fn table_ok(names: Seq<Seq<char>>, postings: Seq<Vec<u64>>, docs: Seq<DocTerms>) -> bool {
    &&& names.len() == postings.len()
    &&& forall|x: int| 0 <= x < names.len() ==> list_ok(#[trigger] names[x], postings[x]@, docs)
    &&& forall|d: int, t: Seq<char>| 0 <= d < docs.len() && #[trigger] docs[d].1.contains(t) ==> names.contains(t)
}

/// Documents before `n`, and document `n` with only `some` of its terms.
spec fn partly(docs: Seq<DocTerms>, n: int, some: Set<Seq<char>>) -> Seq<DocTerms> {
    docs.take(n).push((docs[n].0, some))
}

spec fn part_ok(names: Seq<Seq<char>>, postings: Seq<Vec<u64>>, docs: Seq<DocTerms>, n: int, some: Set<Seq<char>>) -> bool {
    table_ok(names, postings, partly(docs, n, some))
}

proof fn lemma_push_set(s: Seq<Seq<char>>, t: Seq<char>)
    ensures
        s.push(t).to_set() == s.to_set().insert(t),
{
    let p = s.push(t);
    assert forall|x: Seq<char>| p.to_set().contains(x) <==> s.to_set().insert(t).contains(x) by {
        if s.contains(x) {
            assert(p[s.index_of(x)] == x);
        }
        assert(p[s.len() as int] == t);
        if p.contains(x) && x != t {
            assert(s[p.index_of(x)] == x);
        }
    }
    assert(p.to_set() =~= s.to_set().insert(t));
}

/// A document without terms adds nothing.
proof fn lemma_part_none(names: Seq<Seq<char>>, postings: Seq<Vec<u64>>, docs: Seq<DocTerms>, n: int)
    requires
        0 <= n < docs.len(),
        table_ok(names, postings, docs.take(n)),
    ensures
        part_ok(names, postings, docs, n, Seq::<Seq<char>>::empty().to_set()),
{
    let (a, b) = (docs.take(n), partly(docs, n, Seq::<Seq<char>>::empty().to_set()));
    assert forall|t: Seq<char>, k: u64| key_has(a, t, k) <==> #[trigger] key_has(b, t, k) by {
        if key_has(a, t, k) {
            let i = choose|i: int| 0 <= i < a.len() && (#[trigger] a[i]).0.spec_key() == k && a[i].1.contains(t);
            assert(b[i] == a[i]);
        }
        if key_has(b, t, k) {
            let i = choose|i: int| 0 <= i < b.len() && (#[trigger] b[i]).0.spec_key() == k && b[i].1.contains(t);
            assert(b[i] == a[i]);
        }
    }
    assert forall|x: int| 0 <= x < names.len() implies list_ok(#[trigger] names[x], postings[x]@, b) by {
        assert(list_ok(names[x], postings[x]@, a));
    }
    assert forall|d: int, t: Seq<char>| 0 <= d < b.len() && #[trigger] b[d].1.contains(t) implies names.contains(t) by {
        assert(a[d].1.contains(t));
    }
}

/// With all of its terms, the document is there.
proof fn lemma_part_all(names: Seq<Seq<char>>, postings: Seq<Vec<u64>>, docs: Seq<DocTerms>, n: int)
    requires
        0 <= n < docs.len(),
        part_ok(names, postings, docs, n, docs[n].1),
    ensures
        table_ok(names, postings, docs.take(n + 1)),
{
    assert(partly(docs, n, docs[n].1) =~= docs.take(n + 1));
}

/// One more term of the document being added.
proof fn lemma_part_step(
    names: Seq<Seq<char>>,
    postings: Seq<Vec<u64>>,
    names2: Seq<Seq<char>>,
    postings2: Seq<Vec<u64>>,
    docs: Seq<DocTerms>,
    n: int,
    some: Set<Seq<char>>,
    t: Seq<char>,
    id: int,
    key: u64,
)
    requires
        docs_ok(docs),
        0 <= n < docs.len(),
        key == docs[n].0.spec_key(),
        part_ok(names, postings, docs, n, some),
        forall|i: int, j: int| 0 <= i < j < names.len() ==> names[i] != names[j],
        0 <= id < names2.len(),
        names2[id] == t,
        names.contains(t) ==> names2 == names,
        !names.contains(t) ==> names2 == names.push(t) && id == names.len(),
        postings2.len() == names2.len(),
        forall|x: int| 0 <= x < names.len() && x != id ==> (#[trigger] postings2[x])@ == postings[x]@,
        id == names.len() ==> postings2[id]@ == seq![key],
        id < names.len() ==> {
            let l = postings[id]@;
            postings2[id]@ == if l.len() > 0 && l.last() == key { l } else { l.push(key) }
        },
    ensures
        part_ok(names2, postings2, docs, n, some.insert(t)),
{
    let (a, b) = (partly(docs, n, some), partly(docs, n, some.insert(t)));
    assert forall|u: Seq<char>, k: u64| #[trigger] key_has(b, u, k) <==> key_has(a, u, k) || (u == t && k == key) by {
        if key_has(b, u, k) {
            let i = choose|i: int| 0 <= i < b.len() && (#[trigger] b[i]).0.spec_key() == k && b[i].1.contains(u);
            if i < n {
                assert(a[i] == b[i]);
            } else if some.contains(u) {
                assert(a[n].1.contains(u) && a[n].0.spec_key() == k);
            }
        }
        if key_has(a, u, k) {
            let i = choose|i: int| 0 <= i < a.len() && (#[trigger] a[i]).0.spec_key() == k && a[i].1.contains(u);
            assert(b[i].0.spec_key() == k && b[i].1.contains(u));
        }
        if u == t && k == key {
            assert(b[n].0.spec_key() == k && b[n].1.contains(u));
        }
    }
    assert forall|x: int| 0 <= x < names2.len() implies list_ok(#[trigger] names2[x], postings2[x]@, b) by {
        let l2 = postings2[x]@;
        if x == id {
            if id < names.len() {
                let l = postings[id]@;
                assert(names.contains(t)) by {
                    if !names.contains(t) {
                        assert(id == names.len());
                    }
                }
                assert(list_ok(names[id], l, a));
                lemma_append_key(l, a, t, docs, n, key);
                assert forall|k: u64| #[trigger] l2.contains(k) <==> key_has(b, t, k) by {
                    assert(l.contains(k) <==> key_has(a, t, k));
                    if l.len() > 0 && l.last() == key {
                        assert(l.contains(key));
                    } else {
                        lemma_pushed_key(l, key, k);
                    }
                }
            } else {
                assert forall|k: u64| #[trigger] l2.contains(k) <==> key_has(b, t, k) by {
                    assert(l2[0] == key);
                    if key_has(a, t, k) {
                        let i = choose|i: int| 0 <= i < a.len() && (#[trigger] a[i]).0.spec_key() == k && a[i].1.contains(t);
                        assert(a[i].1.contains(t));
                        assert(names.contains(t));
                    }
                }
            }
        } else {
            assert(names2[x] == names[x]);
            assert(list_ok(names[x], postings[x]@, a));
            assert(names[x] != t) by {
                if names[x] == t {
                    assert(names.contains(t));
                    assert(names[id] == t);
                }
            }
            assert forall|k: u64| #[trigger] l2.contains(k) <==> key_has(b, names2[x], k) by {
                assert(key_has(b, names[x], k) <==> key_has(a, names[x], k));
            }
        }
    }
    assert forall|d: int, u: Seq<char>| 0 <= d < b.len() && #[trigger] b[d].1.contains(u) implies names2.contains(u) by {
        if u == t {
            assert(names2[id] == t);
        } else {
            assert(a[d].1.contains(u));
            let x = names.index_of(u);
            assert(names2[x] == u);
        }
    }
}

proof fn lemma_pushed_key(l: Seq<u64>, key: u64, k: u64)
    ensures
        l.push(key).contains(k) <==> l.contains(k) || k == key,
{
    let p = l.push(key);
    assert(p[l.len() as int] == key);
    if l.contains(k) {
        assert(p[l.index_of(k)] == k);
    }
    if p.contains(k) && k != key {
        assert(l[p.index_of(k)] == k);
    }
}

/// The key of the document being added is the largest, and last if it is
/// there.
proof fn lemma_append_key(l: Seq<u64>, a: Seq<DocTerms>, t: Seq<char>, docs: Seq<DocTerms>, n: int, key: u64)
    requires
        docs_ok(docs),
        0 <= n < docs.len(),
        key == docs[n].0.spec_key(),
        a.len() == n + 1,
        forall|i: int| 0 <= i <= n ==> (#[trigger] a[i]).0 == docs[i].0,
        list_ok(t, l, a),
    ensures
        rising(if l.len() > 0 && l.last() == key { l } else { l.push(key) }),
{
    assert forall|i: int| 0 <= i < l.len() implies #[trigger] l[i] <= key by {
        assert(l.contains(l[i]));
        assert(key_has(a, t, l[i]));
        let d = choose|d: int| 0 <= d < a.len() && (#[trigger] a[d]).0.spec_key() == l[i] && a[d].1.contains(t);
        assert(a[d].0 == docs[d].0);
        if d < n {
            assert(docs[d].0.before(docs[n].0));
            key_preserves_order(docs[d].0, docs[n].0);
        }
    }
    if !(l.len() > 0 && l.last() == key) {
        let p = l.push(key);
        assert forall|i: int, j: int| 0 <= i < j < p.len() implies #[trigger] p[i] < #[trigger] p[j] by {
            if j == l.len() {
                assert(l[i] <= key);
                if l[i] == key && i < l.len() - 1 {
                    assert(l[i] < l[l.len() - 1]);
                    assert(l[l.len() - 1] <= key);
                }
            }
        }
    }
}

proof fn lemma_term_lists(names: Seq<Seq<char>>, postings: Seq<Vec<u64>>, docs: Seq<DocTerms>, t: Seq<char>)
    requires
        table_ok(names, postings, docs),
    ensures
        forall|x: int| 0 <= x < names.len() && names[x] == t ==> lists((#[trigger] postings[x])@, docs, PlanView::Term(t)),
        !names.contains(t) ==> lists(Seq::<u64>::empty(), docs, PlanView::Term(t)),
{
    assert forall|k: u64| key_has(docs, t, k) <==> #[trigger] key_matches(docs, PlanView::Term(t), k) by {
        if key_has(docs, t, k) {
            let i = choose|i: int| 0 <= i < docs.len() && (#[trigger] docs[i]).0.spec_key() == k && docs[i].1.contains(t);
            assert(some_accepted(PlanView::Term(t), docs[i].1));
            assert(docs[i].0.spec_key() == k && plan_matches(PlanView::Term(t), docs[i].1));
        }
        if key_matches(docs, PlanView::Term(t), k) {
            let i = choose|i: int| 0 <= i < docs.len() && (#[trigger] docs[i]).0.spec_key() == k && plan_matches(PlanView::Term(t), docs[i].1);
            assert(some_accepted(PlanView::Term(t), docs[i].1));
            assert(docs[i].1.contains(t));
        }
    }
    assert forall|x: int| 0 <= x < names.len() && names[x] == t implies lists((#[trigger] postings[x])@, docs, PlanView::Term(t)) by {
        assert(list_ok(names[x], postings[x]@, docs));
    }
    if !names.contains(t) {
        assert forall|k: u64| !key_matches(docs, PlanView::Term(t), k) by {
            if key_has(docs, t, k) {
                let i = choose|i: int| 0 <= i < docs.len() && (#[trigger] docs[i]).0.spec_key() == k && docs[i].1.contains(t);
                assert(docs[i].1.contains(t));
            }
        }
    }
}

proof fn lemma_all_lists(sets: Seq<Vec<u64>>, views: Seq<PlanView>, docs: Seq<DocTerms>, acc: Seq<u64>, small: int)
    requires
        docs_ok(docs),
        0 <= small < sets.len(),
        sets.len() == views.len(),
        forall|x: int| 0 <= x < sets.len() ==> lists((#[trigger] sets[x])@, docs, views[x]),
        rising(acc),
        forall|k: u64| #[trigger] acc.contains(k) <==> sets[small]@.contains(k) && forall|x: int| 0 <= x < sets.len() ==> (#[trigger] sets[x])@.contains(k),
    ensures
        lists(acc, docs, PlanView::And(views)),
{
    let p = PlanView::And(views);
    assert forall|k: u64| #[trigger] acc.contains(k) <==> key_matches(docs, p, k) by {
        assert(lists(sets[small]@, docs, views[small]));
        if acc.contains(k) {
            assert(sets[small]@.contains(k));
            assert(key_matches(docs, views[small], k));
            let i = choose|i: int| 0 <= i < docs.len() && (#[trigger] docs[i]).0.spec_key() == k && plan_matches(views[small], docs[i].1);
            lemma_plan_parts(views, docs[i].1);
            assert forall|x: int| 0 <= x < views.len() implies plan_matches(#[trigger] views[x], docs[i].1) by {
                assert(sets[x]@.contains(k));
                assert(key_matches(docs, views[x], k));
                let j = choose|j: int| 0 <= j < docs.len() && (#[trigger] docs[j]).0.spec_key() == k && plan_matches(views[x], docs[j].1);
                lemma_one_doc(docs, i, j);
            }
            assert(docs[i].0.spec_key() == k && plan_matches(p, docs[i].1));
        }
        if key_matches(docs, p, k) {
            let i = choose|i: int| 0 <= i < docs.len() && (#[trigger] docs[i]).0.spec_key() == k && plan_matches(p, docs[i].1);
            lemma_plan_parts(views, docs[i].1);
            assert forall|x: int| 0 <= x < sets.len() implies (#[trigger] sets[x])@.contains(k) by {
                assert(plan_matches(views[x], docs[i].1));
                assert(key_matches(docs, views[x], k));
            }
        }
    }
}

proof fn lemma_any_lists(sets: Seq<Vec<u64>>, views: Seq<PlanView>, docs: Seq<DocTerms>, acc: Seq<u64>)
    requires
        sets.len() == views.len(),
        forall|x: int| 0 <= x < sets.len() ==> lists((#[trigger] sets[x])@, docs, views[x]),
        rising(acc),
        forall|k: u64| #[trigger] acc.contains(k) <==> exists|x: int| 0 <= x < sets.len() && (#[trigger] sets[x])@.contains(k),
    ensures
        lists(acc, docs, PlanView::Or(views)),
{
    let p = PlanView::Or(views);
    assert forall|k: u64| #[trigger] acc.contains(k) <==> key_matches(docs, p, k) by {
        if acc.contains(k) {
            let x = choose|x: int| 0 <= x < sets.len() && (#[trigger] sets[x])@.contains(k);
            assert(key_matches(docs, views[x], k));
            let i = choose|i: int| 0 <= i < docs.len() && (#[trigger] docs[i]).0.spec_key() == k && plan_matches(views[x], docs[i].1);
            lemma_plan_parts(views, docs[i].1);
            assert(docs[i].0.spec_key() == k && plan_matches(p, docs[i].1));
        }
        if key_matches(docs, p, k) {
            let i = choose|i: int| 0 <= i < docs.len() && (#[trigger] docs[i]).0.spec_key() == k && plan_matches(p, docs[i].1);
            lemma_plan_parts(views, docs[i].1);
            let x = choose|x: int| 0 <= x < views.len() && plan_matches(#[trigger] views[x], docs[i].1);
            assert(key_matches(docs, views[x], k));
            assert(sets[x]@.contains(k));
        }
    }
}

proof fn lemma_not_lists(a: Seq<u64>, b: Seq<u64>, r: Seq<u64>, docs: Seq<DocTerms>, p: PlanView, n: PlanView)
    requires
        docs_ok(docs),
        lists(a, docs, p),
        lists(b, docs, n),
        rising(r),
        forall|k: u64| #[trigger] r.contains(k) <==> a.contains(k) && !b.contains(k),
    ensures
        lists(r, docs, PlanView::AndNot(Box::new(p), Box::new(n))),
{
    let both = PlanView::AndNot(Box::new(p), Box::new(n));
    assert forall|k: u64| #[trigger] r.contains(k) <==> key_matches(docs, both, k) by {
        assert(a.contains(k) <==> key_matches(docs, p, k));
        assert(b.contains(k) <==> key_matches(docs, n, k));
        if r.contains(k) {
            let i = choose|i: int| 0 <= i < docs.len() && (#[trigger] docs[i]).0.spec_key() == k && plan_matches(p, docs[i].1);
            if plan_matches(n, docs[i].1) {
                assert(key_matches(docs, n, k));
            }
            assert(docs[i].0.spec_key() == k && plan_matches(both, docs[i].1));
        }
        if key_matches(docs, both, k) {
            let i = choose|i: int| 0 <= i < docs.len() && (#[trigger] docs[i]).0.spec_key() == k && plan_matches(both, docs[i].1);
            assert(plan_matches(p, docs[i].1));
            assert(key_matches(docs, p, k));
            if key_matches(docs, n, k) {
                let j = choose|j: int| 0 <= j < docs.len() && (#[trigger] docs[j]).0.spec_key() == k && plan_matches(n, docs[j].1);
                lemma_one_doc(docs, i, j);
            }
        }
    }
}

/// The lengths of the first `n` posting arrays, summed.
pub open spec fn postings_sum(s: Seq<Vec<u64>>, n: int) -> int
    decreases n,
{
    if n <= 0 {
        0
    } else {
        postings_sum(s, n - 1) + s[n - 1]@.len()
    }
}

proof fn lemma_sum_mono(s: Seq<Vec<u64>>, a: int, b: int)
    requires
        0 <= a <= b,
    ensures
        0 <= postings_sum(s, a) <= postings_sum(s, b),
    decreases b,
{
    if b > 0 {
        lemma_sum_mono(s, if a < b { a } else { a - 1 }, b - 1);
    }
}

fn copy_keys(s: &[u64]) -> (r: Vec<u64>)
    ensures
        r@ == s@,
{
    vstd::slice::slice_to_vec(s)
}

// ---------------------------------------------------------------------------
// Set operations on sorted arrays
// ---------------------------------------------------------------------------

/// The first place in `s[lo..]` not below `x`.
fn search_from(s: &[u64], lo: usize, x: u64) -> (r: usize)
    requires
        rising(s@),
        lo <= s@.len(),
    ensures
        lo <= r <= s@.len(),
        forall|i: int| lo <= i < r ==> #[trigger] s@[i] < x,
        forall|i: int| r <= i < s@.len() ==> #[trigger] s@[i] >= x,
{
    let mut a: usize = lo;
    let mut b: usize = s.len();
    while a < b
        invariant
            rising(s@),
            lo <= a <= b <= s@.len(),
            forall|i: int| lo <= i < a ==> #[trigger] s@[i] < x,
            forall|i: int| b <= i < s@.len() ==> #[trigger] s@[i] >= x,
        decreases b - a,
    {
        let m: usize = a + (b - a) / 2;
        if s[m] < x {
            proof {
                assert forall|i: int| lo <= i < m + 1 implies #[trigger] s@[i] < x by {
                    if i < m {
                        assert(s@[i] < s@[m as int]);
                    }
                }
            }
            a = m + 1;
        } else {
            proof {
                assert forall|i: int| m <= i < s@.len() implies #[trigger] s@[i] >= x by {
                    if i > m {
                        assert(s@[m as int] < s@[i]);
                    }
                }
            }
            b = m;
        }
    }
    a
}

/// What is in both.
pub fn intersect(a: &[u64], b: &[u64]) -> (r: Vec<u64>)
    requires
        rising(a@),
        rising(b@),
    ensures
        rising(r@),
        forall|k: u64| #[trigger] r@.contains(k) <==> a@.contains(k) && b@.contains(k),
{
    if a.len() <= b.len() {
        intersect_into(a, b)
    } else {
        intersect_into(b, a)
    }
}

fn intersect_into(small: &[u64], large: &[u64]) -> (r: Vec<u64>)
    requires
        rising(small@),
        rising(large@),
    ensures
        rising(r@),
        forall|k: u64| #[trigger] r@.contains(k) <==> small@.contains(k) && large@.contains(k),
{
    let mut out: Vec<u64> = Vec::new();
    let far: bool = large.len() > 0 && (large.len() - 1) / 32 >= small.len();
    let mut lo: usize = 0;
    let mut i: usize = 0;
    while i < small.len() && lo < large.len()
        invariant
            rising(small@),
            rising(large@),
            i <= small@.len(),
            lo <= large@.len(),
            rising(out@),
            forall|x: int| 0 <= x < lo && i < small@.len() ==> #[trigger] large@[x] < small@[i as int],
            forall|x: int| 0 <= x < out@.len() && i < small@.len() ==> #[trigger] out@[x] < small@[i as int],
            forall|x: int| 0 <= x < out@.len() ==> small@.contains(#[trigger] out@[x]) && large@.contains(out@[x]),
            forall|x: int| 0 <= x < i && large@.contains(#[trigger] small@[x]) ==> out@.contains(small@[x]),
        decreases small@.len() - i,
    {
        let x: u64 = small[i];
        // Galloping: binary-search each small element in the shrinking tail.
        let at: usize = if far {
            search_from(large, lo, x)
        } else {
            let mut j: usize = lo;
            while j < large.len() && large[j] < x
                invariant
                    rising(large@),
                    lo <= j <= large@.len(),
                    forall|y: int| lo <= y < j ==> #[trigger] large@[y] < x,
                decreases large@.len() - j,
            {
                j = j + 1;
            }
            proof {
                assert forall|y: int| j <= y < large@.len() implies #[trigger] large@[y] >= x by {
                    if y > j {
                        assert(large@[j as int] < large@[y]);
                    }
                }
            }
            j
        };
        let ghost was = out@;
        let found: bool = at < large.len() && large[at] == x;
        if found {
            out.push(x);
            lo = at + 1;
        } else {
            lo = at;
        }
        proof {
            assert forall|k: u64| out@.contains(k) <==> was.contains(k) || (found && k == x) by {
                if found {
                    lemma_pushed_key(was, x, k);
                }
            }
            assert forall|y: int| 0 <= y < i + 1 && large@.contains(#[trigger] small@[y]) implies out@.contains(small@[y]) by {
                if y == i {
                    let z = large@.index_of(x);
                    assert(large@[z] == x);
                    assert(z >= at);
                    if z > at {
                        assert(large@[at as int] < large@[z]);
                        assert(large@[at as int] >= x);
                    }
                    assert(found);
                    assert(out@[out@.len() - 1] == x);
                } else {
                    assert(was.contains(small@[y]));
                }
            }
            if found {
                assert(small@.contains(small@[i as int]) && large@.contains(large@[at as int]));
            }
            if i + 1 < small@.len() {
                assert(small@[i as int] < small@[i + 1]);
                assert forall|y: int| 0 <= y < lo implies #[trigger] large@[y] < small@[i + 1] by {
                }
            }
        }
        i = i + 1;
    }
    proof {
        assert forall|k: u64| #[trigger] out@.contains(k) <==> small@.contains(k) && large@.contains(k) by {
            if out@.contains(k) {
                let x = out@.index_of(k);
                assert(small@.contains(out@[x]) && large@.contains(out@[x]));
            }
            if small@.contains(k) && large@.contains(k) {
                let y = small@.index_of(k);
                if y < i {
                    assert(large@.contains(small@[y]));
                } else {
                    let z = large@.index_of(k);
                    assert(large@[z] < small@[i as int]);
                    if y > i {
                        assert(small@[i as int] < small@[y]);
                    }
                }
            }
        }
    }
    out
}

/// What is in either.
pub fn union(a: &[u64], b: &[u64]) -> (r: Vec<u64>)
    requires
        rising(a@),
        rising(b@),
    ensures
        rising(r@),
        forall|k: u64| #[trigger] r@.contains(k) <==> a@.contains(k) || b@.contains(k),
{
    let mut out: Vec<u64> = Vec::new();
    let (mut i, mut j): (usize, usize) = (0, 0);
    let (n, m): (usize, usize) = (a.len(), b.len());
    while i < n || j < m
        invariant
            n == a@.len(),
            m == b@.len(),
            rising(a@),
            rising(b@),
            i <= n,
            j <= m,
            rising(out@),
            forall|x: int| 0 <= x < out@.len() && i < n ==> #[trigger] out@[x] < a@[i as int],
            forall|x: int| 0 <= x < out@.len() && j < m ==> #[trigger] out@[x] < b@[j as int],
            forall|k: u64| #[trigger] out@.contains(k) <==> a@.take(i as int).contains(k) || b@.take(j as int).contains(k),
        decreases (n - i) + (m - j),
    {
        let ghost was = out@;
        let (ta, tb): (bool, bool) = if i < n && j < m {
            (a[i] <= b[j], b[j] <= a[i])
        } else {
            (i < n, j < m)
        };
        let x: u64 = if ta {
            a[i]
        } else {
            b[j]
        };
        out.push(x);
        proof {
            assert forall|k: u64| #[trigger] out@.contains(k) <==> a@.take(if ta { i + 1 } else { i as int }).contains(k) || b@.take(
                if tb { j + 1 } else { j as int },
            ).contains(k) by {
                lemma_pushed_key(was, x, k);
                if ta {
                    assert(a@.take(i + 1) =~= a@.take(i as int).push(a@[i as int]));
                    lemma_pushed_key(a@.take(i as int), a@[i as int], k);
                }
                if tb {
                    assert(b@.take(j + 1) =~= b@.take(j as int).push(b@[j as int]));
                    lemma_pushed_key(b@.take(j as int), b@[j as int], k);
                }
            }
            if ta && i + 1 < n {
                assert(a@[i as int] < a@[i + 1]);
            }
            if tb && j + 1 < m {
                assert(b@[j as int] < b@[j + 1]);
            }
        }
        if ta {
            i = i + 1;
        }
        if tb {
            j = j + 1;
        }
    }
    proof {
        assert(a@.take(i as int) =~= a@);
        assert(b@.take(j as int) =~= b@);
    }
    out
}

/// What is in `a` but not in `b`.
pub fn difference(a: &[u64], b: &[u64]) -> (r: Vec<u64>)
    requires
        rising(a@),
        rising(b@),
    ensures
        rising(r@),
        forall|k: u64| #[trigger] r@.contains(k) <==> a@.contains(k) && !b@.contains(k),
{
    let mut out: Vec<u64> = Vec::new();
    let mut j: usize = 0;
    let mut i: usize = 0;
    while i < a.len()
        invariant
            rising(a@),
            rising(b@),
            i <= a@.len(),
            j <= b@.len(),
            rising(out@),
            forall|x: int| 0 <= x < j && i < a@.len() ==> #[trigger] b@[x] < a@[i as int],
            forall|x: int| 0 <= x < out@.len() && i < a@.len() ==> #[trigger] out@[x] < a@[i as int],
            forall|k: u64| #[trigger] out@.contains(k) <==> a@.take(i as int).contains(k) && !b@.contains(k),
        decreases a@.len() - i,
    {
        let x: u64 = a[i];
        while j < b.len() && b[j] < x
            invariant
                rising(b@),
                j <= b@.len(),
                forall|y: int| 0 <= y < j ==> #[trigger] b@[y] < x,
            decreases b@.len() - j,
        {
            j = j + 1;
        }
        let ghost was = out@;
        let missing: bool = j >= b.len() || b[j] != x;
        if missing {
            out.push(x);
        }
        proof {
            assert(b@.contains(x) <==> !missing) by {
                if b@.contains(x) {
                    let z = b@.index_of(x);
                    assert(z >= j);
                    if z > j {
                        assert(b@[j as int] < b@[z]);
                    }
                }
                if !missing {
                    assert(b@[j as int] == x);
                }
            }
            assert(a@.take(i + 1) =~= a@.take(i as int).push(x));
            assert forall|k: u64| #[trigger] out@.contains(k) <==> a@.take(i + 1).contains(k) && !b@.contains(k) by {
                lemma_pushed_key(a@.take(i as int), x, k);
                if missing {
                    lemma_pushed_key(was, x, k);
                }
                assert(was.contains(k) <==> a@.take(i as int).contains(k) && !b@.contains(k));
            }
            if i + 1 < a@.len() {
                assert(a@[i as int] < a@[i + 1]);
                assert forall|y: int| 0 <= y < j implies #[trigger] b@[y] < a@[i + 1] by {
                }
            }
        }
        i = i + 1;
    }
    proof {
        assert(a@.take(i as int) =~= a@);
    }
    out
}

// ---------------------------------------------------------------------------
// Laws
// ---------------------------------------------------------------------------

/// The reference engine and the index find the same tuples.
pub proof fn baseline_agrees_with_index(index: Index, docs: Seq<DocTerms>, p: PlanView, keys: Seq<u64>, tids: Seq<Tid>, tid: Tid)
    requires
        index.wf(),
        index.is_of(docs),
        docs_ok(docs),
        runnable(p),
        lists(keys, docs, p),
        index.apart(),
        index.plain() || !p.inexact(),
        is_listing(tids, index.found(p)),
        tid.valid(),
    ensures
        keys.contains(tid.spec_key() as u64) <==> tids.contains(tid),
{
    let k = tid.spec_key() as u64;
    search_is_naive_evaluation(index, docs, p, tid);
    index.search_gives_matches(p);
    if keys.contains(k) {
        assert(key_matches(docs, p, k));
        let i = choose|i: int| 0 <= i < docs.len() && (#[trigger] docs[i]).0.spec_key() == k && plan_matches(p, docs[i].1);
        key_preserves_order(docs[i].0, tid);
        assert(docs[i].0 == tid && plan_matches(p, docs[i].1));
    }
    if tids.contains(tid) {
        assert(index.matching(p).contains(tid));
        let i = choose|i: int| 0 <= i < docs.len() && (#[trigger] docs[i]).0 == tid && plan_matches(p, docs[i].1);
        assert(docs[i].0.spec_key() == k && plan_matches(p, docs[i].1));
        assert(key_matches(docs, p, k));
    }
}

} // verus!
