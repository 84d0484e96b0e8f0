//! Index plans: what a query asks of the index.

use vstd::prelude::*;
use vstd::utf8::encode_utf8;
use crate::dict::lemma_encode_injective;
use crate::pattern::{bytes_within, osa_within, within};
use crate::terms::TermTable;
use crate::text::{
    char_less, chars_of, compare, contains, copy_of, fits, is_bytes_of, may_occur, may_start, occurs, starts, starts_with,
};
use crate::tokenize::{sorted_terms, strings_view, terms_of, Analyzer};

verus! {

/// A validated, normalized query ready to run against any segment.
#[derive(Debug, PartialEq)]
pub enum Plan {
    Term(String),
    /// A term starting with this.
    Prefix(String),
    /// A term containing this.
    Fragment(String),
    /// A term within this many OSA edits.
    Fuzzy(String, u8),
    And(Vec<Plan>),
    Or(Vec<Plan>),
    /// `positive AND NOT negative`.
    AndNot(Box<Plan>, Box<Plan>),
    /// A superset of the query's matches (phrases, proximity): candidates
    /// to check against the row.
    Recheck(Box<Plan>),
}

/// What a [`Plan`] says.
pub ghost enum PlanView {
    Term(Seq<char>),
    Prefix(Seq<char>),
    Fragment(Seq<char>),
    Fuzzy(Seq<char>, int),
    And(Seq<PlanView>),
    Or(Seq<PlanView>),
    AndNot(Box<PlanView>, Box<PlanView>),
    Recheck(Box<PlanView>),
}

impl Plan {
    pub open spec fn view(self) -> PlanView
        decreases self,
    {
        match self {
            Plan::Term(t) => PlanView::Term(t@),
            Plan::Prefix(t) => PlanView::Prefix(t@),
            Plan::Fragment(t) => PlanView::Fragment(t@),
            Plan::Fuzzy(t, k) => PlanView::Fuzzy(t@, k as int),
            Plan::And(cs) => PlanView::And(Seq::new(cs@.len(), |i: int| if 0 <= i < cs@.len() { cs@[i].view() } else { arbitrary() })),
            Plan::Or(cs) => PlanView::Or(Seq::new(cs@.len(), |i: int| if 0 <= i < cs@.len() { cs@[i].view() } else { arbitrary() })),
            Plan::AndNot(p, n) => PlanView::AndNot(Box::new(p.view()), Box::new(n.view())),
            Plan::Recheck(p) => PlanView::Recheck(Box::new(p.view())),
        }
    }
}

/// What a list of plans says.
pub open spec fn plan_views(s: Seq<Plan>) -> Seq<PlanView> {
    Seq::new(s.len(), |i: int| s[i].view())
}

pub proof fn lemma_plan_view(p: Plan)
    ensures
        match p {
            Plan::And(cs) => p.view() == PlanView::And(plan_views(cs@)),
            Plan::Or(cs) => p.view() == PlanView::Or(plan_views(cs@)),
            _ => true,
        },
{
    match p {
        Plan::And(cs) => {
            assert(p.view()->And_0 =~= plan_views(cs@));
        },
        Plan::Or(cs) => {
            assert(p.view()->Or_0 =~= plan_views(cs@));
        },
        _ => {},
    }
}

/// Whether a term or pattern accepts a term.
pub open spec fn plan_accepts(p: PlanView, t: Seq<char>) -> bool {
    match p {
        PlanView::Term(x) => t == x,
        PlanView::Prefix(x) => starts(t, x),
        PlanView::Fragment(x) => occurs(t, x),
        PlanView::Fuzzy(x, k) => within(t, x, k),
        _ => false,
    }
}

/// Some of the terms is accepted.
pub open spec fn some_accepted(p: PlanView, terms: Set<Seq<char>>) -> bool {
    exists|t: Seq<char>| #[trigger] terms.contains(t) && plan_accepts(p, t)
}

/// Whether a document with these terms matches a plan.
pub open spec fn plan_matches(p: PlanView, terms: Set<Seq<char>>) -> bool
    decreases p,
{
    match p {
        PlanView::And(cs) => forall|i: int| 0 <= i < cs.len() ==> plan_matches(#[trigger] cs[i], terms),
        PlanView::Or(cs) => exists|i: int| 0 <= i < cs.len() && plan_matches(#[trigger] cs[i], terms),
        PlanView::AndNot(a, b) => plan_matches(*a, terms) && !plan_matches(*b, terms),
        PlanView::Recheck(a) => plan_matches(*a, terms),
        _ => some_accepted(p, terms),
    }
}

pub proof fn lemma_plan_parts(cs: Seq<PlanView>, terms: Set<Seq<char>>)
    ensures
        plan_matches(PlanView::And(cs), terms) == forall|i: int| 0 <= i < cs.len() ==> plan_matches(#[trigger] cs[i], terms),
        plan_matches(PlanView::Or(cs), terms) == exists|i: int| 0 <= i < cs.len() && plan_matches(#[trigger] cs[i], terms),
        PlanView::And(cs).inexact() == exists|i: int| 0 <= i < cs.len() && (#[trigger] cs[i]).inexact(),
        PlanView::Or(cs).inexact() == exists|i: int| 0 <= i < cs.len() && (#[trigger] cs[i]).inexact(),
{
    let (a, o) = (PlanView::And(cs), PlanView::Or(cs));
    assert(a->And_0 == cs && o->Or_0 == cs);
    assert(plan_matches(a, terms) == forall|i: int| 0 <= i < a->And_0.len() ==> plan_matches(#[trigger] a->And_0[i], terms));
    assert(plan_matches(o, terms) == exists|i: int| 0 <= i < o->Or_0.len() && plan_matches(#[trigger] o->Or_0[i], terms));
    assert(a.inexact() == exists|i: int| 0 <= i < a->And_0.len() && (#[trigger] a->And_0[i]).inexact());
    assert(o.inexact() == exists|i: int| 0 <= i < o->Or_0.len() && (#[trigger] o->Or_0[i]).inexact());
}

impl PlanView {
    /// Whether the index may return tuples that don't match.
    pub open spec fn inexact(self) -> bool
        decreases self,
    {
        match self {
            PlanView::Fragment(_) => true,
            PlanView::And(cs) => exists|i: int| 0 <= i < cs.len() && (#[trigger] cs[i]).inexact(),
            PlanView::Or(cs) => exists|i: int| 0 <= i < cs.len() && (#[trigger] cs[i]).inexact(),
            PlanView::AndNot(p, n) => p.inexact(),
            PlanView::Recheck(_) => true,
            _ => false,
        }
    }
}

impl PlanView {
    /// Whether the plan holds a [`Plan::Recheck`].
    pub open spec fn holds_recheck(self) -> bool
        decreases self,
    {
        match self {
            PlanView::And(cs) => exists|i: int| 0 <= i < cs.len() && (#[trigger] cs[i]).holds_recheck(),
            PlanView::Or(cs) => exists|i: int| 0 <= i < cs.len() && (#[trigger] cs[i]).holds_recheck(),
            PlanView::AndNot(p, n) => p.holds_recheck() || n.holds_recheck(),
            PlanView::Recheck(_) => true,
            _ => false,
        }
    }
}

// ---------------------------------------------------------------------------
// Documents without an index
// ---------------------------------------------------------------------------

/// One document's distinct terms, for evaluating a [`Plan`] without an
/// index (sequential scans, rechecks, pending-list records).
pub trait TermSet {
    /// The terms.
    spec fn term_set(&self) -> Set<Seq<char>>;

    /// The representation holds together.
    spec fn terms_ok(&self) -> bool;

    fn contains_term(&self, term: &str) -> (r: bool)
        requires
            self.terms_ok(),
        ensures
            r == self.term_set().contains(term@),
    ;

    /// Whether the pattern `p` accepts any term.
    fn any_term(&self, p: &Plan) -> (r: bool)
        requires
            self.terms_ok(),
        ensures
            r == some_accepted(p.view(), self.term_set()),
    ;
}

/// Whether the pattern `p` may accept a term with the bytes `b`.
pub(crate) fn may_accept(p: &Plan, b: &[u8]) -> (r: bool)
    ensures
        forall|t: Seq<char>| #[trigger] encode_utf8(t) == b@ && plan_accepts(p.view(), t) ==> r,
{
    match p {
        Plan::Term(x) => is_bytes_of(b, x.as_str()),
        Plan::Prefix(x) => may_start(b, x.as_str()),
        Plan::Fragment(x) => may_occur(b, x.as_str()),
        Plan::Fuzzy(x, k) => bytes_within(b, x.as_str().as_bytes(), *k),
        _ => false,
    }
}

/// Whether the pattern `p` accepts `t`.
pub(crate) fn accepts_term(p: &Plan, t: &String) -> (r: bool)
    ensures
        r == plan_accepts(p.view(), t@),
{
    match p {
        Plan::Term(x) => *t == *x,
        Plan::Prefix(x) => may_start(t.as_str().as_bytes(), x.as_str()) && starts_with(
            chars_of(t.as_str()).as_slice(),
            chars_of(x.as_str()).as_slice(),
        ),
        Plan::Fragment(x) => may_occur(t.as_str().as_bytes(), x.as_str()) && contains(
            chars_of(t.as_str()).as_slice(),
            chars_of(x.as_str()).as_slice(),
        ),
        Plan::Fuzzy(x, k) => osa_within(t.as_str(), x.as_str(), *k),
        _ => false,
    }
}

impl TermSet for TermTable {
    open spec fn term_set(&self) -> Set<Seq<char>> {
        self.names().to_set()
    }

    open spec fn terms_ok(&self) -> bool {
        self.wf()
    }

    fn contains_term(&self, term: &str) -> (r: bool) {
        match self.find(term) {
            Some(i) => {
                proof {
                    assert(self.names()[i as int] == term@);
                }
                true
            },
            None => false,
        }
    }

    fn any_term(&self, p: &Plan) -> (r: bool) {
        let mut i: usize = 0;
        while i < self.len()
            invariant
                i <= self.names().len(),
                forall|k: int| 0 <= k < i ==> !plan_accepts(p.view(), #[trigger] self.names()[k]),
            decreases self.names().len() - i,
        {
            if accepts_term(p, self.name(i)) {
                proof {
                    assert(self.term_set().contains(self.names()[i as int]));
                }
                return true;
            }
            i = i + 1;
        }
        proof {
            assert forall|t: Seq<char>| #[trigger] self.term_set().contains(t) implies !plan_accepts(p.view(), t) by {
                let k = self.names().index_of(t);
                assert(!plan_accepts(p.view(), self.names()[k]));
            }
        }
        false
    }
}

/// Distinct terms in sorted order.
pub struct SortedTerms<'a>(pub &'a [String]);

impl<'a> TermSet for SortedTerms<'a> {
    open spec fn term_set(&self) -> Set<Seq<char>> {
        strings_view(self.0@).to_set()
    }

    open spec fn terms_ok(&self) -> bool {
        sorted_terms(strings_view(self.0@))
    }

    fn contains_term(&self, term: &str) -> (r: bool) {
        let t: Vec<char> = chars_of(term);
        let ghost v = strings_view(self.0@);
        let mut lo: usize = 0;
        let mut hi: usize = self.0.len();
        while lo < hi
            invariant
                v == strings_view(self.0@),
                sorted_terms(v),
                t@ == term@,
                lo <= hi <= self.0@.len(),
                forall|i: int| 0 <= i < lo ==> char_less(#[trigger] v[i], t@),
                forall|i: int| hi <= i < v.len() ==> char_less(t@, #[trigger] v[i]),
            decreases hi - lo,
        {
            let mid: usize = lo + (hi - lo) / 2;
            let c: i8 = compare(chars_of(self.0[mid].as_str()).as_slice(), t.as_slice());
            proof {
                assert(v[mid as int] == self.0@[mid as int]@);
            }
            if c < 0 {
                proof {
                    assert forall|i: int| 0 <= i < mid + 1 implies char_less(#[trigger] v[i], t@) by {
                        if i < mid {
                            crate::text::lemma_less_trans(v[i], v[mid as int], t@);
                        }
                    }
                }
                lo = mid + 1;
            } else if c > 0 {
                proof {
                    assert forall|i: int| mid <= i < v.len() implies char_less(t@, #[trigger] v[i]) by {
                        if i > mid {
                            crate::text::lemma_less_trans(t@, v[mid as int], v[i]);
                        }
                    }
                }
                hi = mid;
            } else {
                proof {
                    assert(v.contains(term@));
                }
                return true;
            }
        }
        proof {
            if v.contains(term@) {
                let i = v.index_of(term@);
                crate::text::lemma_less_irreflexive(term@);
                if i < lo {
                    assert(char_less(v[i], t@));
                } else {
                    assert(char_less(t@, v[i]));
                }
            }
        }
        false
    }

    fn any_term(&self, p: &Plan) -> (r: bool) {
        let ghost v = strings_view(self.0@);
        let mut i: usize = 0;
        while i < self.0.len()
            invariant
                v == strings_view(self.0@),
                i <= self.0@.len(),
                forall|k: int| 0 <= k < i ==> !plan_accepts(p.view(), #[trigger] v[k]),
            decreases self.0@.len() - i,
        {
            proof {
                assert(v[i as int] == self.0@[i as int]@);
            }
            if accepts_term(p, &self.0[i]) {
                proof {
                    assert(self.term_set().contains(v[i as int]));
                }
                return true;
            }
            i = i + 1;
        }
        proof {
            assert forall|t: Seq<char>| #[trigger] self.term_set().contains(t) implies !plan_accepts(p.view(), t) by {
                let k = v.index_of(t);
                assert(!plan_accepts(p.view(), v[k]));
            }
        }
        false
    }
}

/// Terms in any order.
struct ListedTerms<'a>(&'a [String]);

impl<'a> TermSet for ListedTerms<'a> {
    closed spec fn term_set(&self) -> Set<Seq<char>> {
        strings_view(self.0@).to_set()
    }

    closed spec fn terms_ok(&self) -> bool {
        true
    }

    fn contains_term(&self, term: &str) -> (r: bool) {
        let ghost v = strings_view(self.0@);
        let mut i: usize = 0;
        while i < self.0.len()
            invariant
                v == strings_view(self.0@),
                i <= self.0@.len(),
                forall|k: int| 0 <= k < i ==> #[trigger] v[k] != term@,
            decreases self.0@.len() - i,
        {
            proof {
                assert(v[i as int] == self.0@[i as int]@);
            }
            if is_bytes_of(self.0[i].as_str().as_bytes(), term) {
                proof {
                    lemma_encode_injective(v[i as int], term@);
                    assert(v.contains(term@));
                }
                return true;
            }
            i = i + 1;
        }
        proof {
            if v.contains(term@) {
                let k = v.index_of(term@);
                assert(v[k] == term@);
            }
        }
        false
    }

    fn any_term(&self, p: &Plan) -> (r: bool) {
        let ghost v = strings_view(self.0@);
        let mut i: usize = 0;
        while i < self.0.len()
            invariant
                v == strings_view(self.0@),
                i <= self.0@.len(),
                forall|k: int| 0 <= k < i ==> !plan_accepts(p.view(), #[trigger] v[k]),
            decreases self.0@.len() - i,
        {
            proof {
                assert(v[i as int] == self.0@[i as int]@);
            }
            if accepts_term(p, &self.0[i]) {
                proof {
                    assert(self.term_set().contains(v[i as int]));
                }
                return true;
            }
            i = i + 1;
        }
        proof {
            assert forall|t: Seq<char>| #[trigger] self.term_set().contains(t) implies !plan_accepts(p.view(), t) by {
                let k = v.index_of(t);
                assert(!plan_accepts(p.view(), v[k]));
            }
        }
        false
    }
}

impl Plan {
    /// Evaluate against one document's terms.
    pub fn matches<D: TermSet>(&self, doc: &D) -> (r: bool)
        requires
            doc.terms_ok(),
        ensures
            r == plan_matches(self.view(), doc.term_set()),
        decreases self,
    {
        proof {
            lemma_plan_view(*self);
        }
        match self {
            Plan::Term(t) => {
                let r: bool = doc.contains_term(t.as_str());
                proof {
                    if r {
                        assert(doc.term_set().contains(t@) && plan_accepts(self.view(), t@));
                    }
                }
                r
            },
            Plan::Prefix(_) | Plan::Fragment(_) | Plan::Fuzzy(_, _) => doc.any_term(self),
            Plan::And(cs) => {
                proof {
                    lemma_plan_parts(plan_views(cs@), doc.term_set());
                }
                let mut i: usize = 0;
                while i < cs.len()
                    invariant
                        doc.terms_ok(),
                        *self is And,
                        self->And_0 == *cs,
                        i <= cs@.len(),
                        forall|k: int| 0 <= k < i ==> plan_matches(#[trigger] plan_views(cs@)[k], doc.term_set()),
                        self.view() == PlanView::And(plan_views(cs@)),
                        plan_matches(self.view(), doc.term_set()) == forall|i: int| 0 <= i < plan_views(cs@).len() ==> plan_matches(#[trigger] plan_views(cs@)[i], doc.term_set()),
                    decreases cs@.len() - i,
                {
                    proof {
                        assert(plan_views(cs@)[i as int] == cs@[i as int].view());
                        assert(decreases_to!(*self => self->And_0));
                        assert(decreases_to!(*cs => cs[i as int]));
                    }
                    if !cs[i].matches(doc) {
                        return false;
                    }
                    i = i + 1;
                }
                true
            },
            Plan::Or(cs) => {
                proof {
                    lemma_plan_parts(plan_views(cs@), doc.term_set());
                }
                let mut i: usize = 0;
                while i < cs.len()
                    invariant
                        doc.terms_ok(),
                        *self is Or,
                        self->Or_0 == *cs,
                        i <= cs@.len(),
                        forall|k: int| 0 <= k < i ==> !plan_matches(#[trigger] plan_views(cs@)[k], doc.term_set()),
                        plan_matches(self.view(), doc.term_set()) == exists|i: int| 0 <= i < plan_views(cs@).len() && plan_matches(#[trigger] plan_views(cs@)[i], doc.term_set()),
                    decreases cs@.len() - i,
                {
                    proof {
                        assert(plan_views(cs@)[i as int] == cs@[i as int].view());
                        assert(decreases_to!(*self => self->Or_0));
                        assert(decreases_to!(*cs => cs[i as int]));
                    }
                    if cs[i].matches(doc) {
                        return true;
                    }
                    i = i + 1;
                }
                false
            },
            Plan::AndNot(p, n) => p.matches(doc) && !n.matches(doc),
            Plan::Recheck(p) => p.matches(doc),
        }
    }

    /// Analyze `text` and evaluate against it. Exact unless the plan holds a
    /// [`Plan::Recheck`]; the exact answer is [`Query::matches_text`].
    pub fn matches_text(&self, text: &str, analyzer: &mut Analyzer) -> (r: bool)
        requires
            fits(text@),
        ensures
            r == plan_matches(self.view(), terms_of(text@).to_set()),
    {
        let all: Vec<String> = analyzer.terms(text);
        self.matches(&ListedTerms(all.as_slice()))
    }

    /// Whether the index may return tuples that don't match (fragments
    /// resolved through grams), so callers must recheck candidates.
    pub fn needs_recheck(&self) -> (r: bool)
        ensures
            r == self.view().inexact(),
        decreases self,
    {
        proof {
            lemma_plan_view(*self);
        }
        match self {
            Plan::Fragment(_) => true,
            Plan::Term(_) | Plan::Prefix(_) | Plan::Fuzzy(_, _) => false,
            Plan::And(cs) => {
                proof {
                    lemma_plan_parts(plan_views(cs@), Set::empty());
                }
                any_inexact(cs)
            },
            Plan::Or(cs) => {
                proof {
                    lemma_plan_parts(plan_views(cs@), Set::empty());
                }
                any_inexact(cs)
            },
            // Fragments under a negation are always resolved exactly.
            Plan::AndNot(p, _) => p.needs_recheck(),
            Plan::Recheck(_) => true,
        }
    }
}

fn any_inexact(cs: &Vec<Plan>) -> (r: bool)
    ensures
        r == exists|i: int| 0 <= i < plan_views(cs@).len() && (#[trigger] plan_views(cs@)[i]).inexact(),
    decreases cs,
{
    let mut i: usize = 0;
    while i < cs.len()
        invariant
            i <= cs@.len(),
            forall|k: int| 0 <= k < i ==> !(#[trigger] plan_views(cs@)[k]).inexact(),
        decreases cs@.len() - i,
    {
        proof {
            assert(plan_views(cs@)[i as int] == cs@[i as int].view());
        }
        if cs[i].needs_recheck() {
            return true;
        }
        i = i + 1;
    }
    false
}

impl Plan {
    /// A plan that says the same.
    pub fn copy(&self) -> (r: Plan)
        ensures
            r.view() == self.view(),
        decreases self,
    {
        proof {
            lemma_plan_view(*self);
        }
        match self {
            Plan::Term(t) => Plan::Term(copy_of(t.as_str())),
            Plan::Prefix(t) => Plan::Prefix(copy_of(t.as_str())),
            Plan::Fragment(t) => Plan::Fragment(copy_of(t.as_str())),
            Plan::Fuzzy(t, k) => Plan::Fuzzy(copy_of(t.as_str()), *k),
            Plan::And(cs) => {
                let p: Plan = Plan::And(copies(cs));
                proof {
                    lemma_plan_view(p);
                }
                p
            },
            Plan::Or(cs) => {
                let p: Plan = Plan::Or(copies(cs));
                proof {
                    lemma_plan_view(p);
                }
                p
            },
            Plan::AndNot(a, b) => Plan::AndNot(Box::new(a.copy()), Box::new(b.copy())),
            Plan::Recheck(a) => Plan::Recheck(Box::new(a.copy())),
        }
    }
}

fn copies(cs: &Vec<Plan>) -> (r: Vec<Plan>)
    ensures
        plan_views(r@) == plan_views(cs@),
    decreases cs,
{
    let mut out: Vec<Plan> = Vec::new();
    let mut i: usize = 0;
    while i < cs.len()
        invariant
            i <= cs@.len(),
            out@.len() == i,
            forall|k: int| 0 <= k < i ==> (#[trigger] out@[k]).view() == cs@[k].view(),
        decreases cs@.len() - i,
    {
        out.push(cs[i].copy());
        i = i + 1;
    }
    proof {
        assert(plan_views(out@) =~= plan_views(cs@));
    }
    out
}

} // verus!
