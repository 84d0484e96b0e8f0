//! Search-box queries: one typed string, matched the way a search box should
//! and ranked by *how* it matched.
//!
//! Every query term is compared with a document's terms at five **tiers**:
//!
//! | tier | the document has a term that…        | applies to query terms of |
//! |-----:|---------------------------------------|---------------------------|
//! | 0    | equals it                             | any length                |
//! | 1    | starts with it                        | any length                |
//! | 2    | contains it                           | [`FRAGMENT_MIN`]+ chars   |
//! | 3    | is within 1 edit (OSA)                | [`TYPO1_MIN`]+ chars      |
//! | 4    | is within 2 edits                     | [`TYPO2_MIN`]+ chars      |
//!
//! A document's tier for the whole query is the worst over query terms of
//! each term's best tier (all terms must match, each as well as it can);
//! no tier means no match. [`SearchBox::plan`] gives the index plan for
//! "tier ≤ L", so an index can produce matches tier by tier and stop early.

use vstd::prelude::*;
use vstd::utf8::encode_utf8;
use crate::dict::lemma_encode_injective;
use crate::pattern::{one_edit, one_edit_is_distance_one, osa_distance, osa_within, within};
use crate::plan::{lemma_plan_parts, lemma_plan_view, plan_accepts, plan_matches, plan_views, some_accepted, Plan, PlanView};
use crate::segment::{lemma_runnable_parts, runnable};
use crate::text::{
    chars_of, contains, contains_what_stands_inside, copy_of, fits, is_bytes_of, may_occur, may_start, occurs, starts, starts_with, starts_with_what_leads,
};
use crate::tokenize::{sorted_terms, strings_view, terms_of, Analyzer};

verus! {

pub const FRAGMENT_MIN: usize = 3;

pub const TYPO1_MIN: usize = 4;

pub const TYPO2_MIN: usize = 7;

/// The worst tier.
pub const MAX_TIER: u8 = 4;

/// A search-box query.
#[derive(Clone, Debug, PartialEq, Eq)]
pub struct SearchBox {
    terms: Vec<String>,
    /// Typo tiers used: 0 (none), 1 (tier 3), or 2 (tiers 3 and 4).
    max_typos: u8,
}

/// Whether terms of `n` chars match at `tier`.
pub open spec fn term_has_tier(n: int, tier: int) -> bool {
    ||| tier == 0 || tier == 1
    ||| tier == 2 && n >= FRAGMENT_MIN
    ||| tier == 3 && n >= TYPO1_MIN
    ||| tier == 4 && n >= TYPO2_MIN
}

/// How document term `d` has to match query term `q` at `tier`.
pub open spec fn holds_at(q: Seq<char>, d: Seq<char>, tier: int) -> bool {
    if tier == 0 {
        d == q
    } else if tier == 1 {
        starts(d, q)
    } else if tier == 2 {
        occurs(d, q)
    } else if tier == 3 {
        within(d, q, 1)
    } else {
        within(d, q, 2)
    }
}

/// Whether tier `tier` of term `q` is in use with up to `typos` typos.
pub open spec fn in_use(q: Seq<char>, tier: int, typos: int) -> bool {
    term_has_tier(q.len() as int, tier) && (tier < 3 || tier - 2 <= typos)
}

/// Document term `d` matches `q` at some tier up to `tier`.
pub open spec fn term_within(q: Seq<char>, d: Seq<char>, tier: int, typos: int) -> bool {
    exists|k: int| 0 <= k <= tier && #[trigger] in_use(q, k, typos) && holds_at(q, d, k)
}

/// Some document term matches `q` at some tier up to `tier`.
pub open spec fn term_found(q: Seq<char>, terms: Set<Seq<char>>, tier: int, typos: int) -> bool {
    exists|d: Seq<char>| #[trigger] terms.contains(d) && term_within(q, d, tier, typos)
}

/// The plan for one tier of one term.
pub open spec fn tier_plan(q: Seq<char>, tier: int) -> PlanView {
    if tier == 0 {
        PlanView::Term(q)
    } else if tier == 1 {
        PlanView::Prefix(q)
    } else if tier == 2 {
        PlanView::Fragment(q)
    } else if tier == 3 {
        PlanView::Fuzzy(q, 1)
    } else {
        PlanView::Fuzzy(q, 2)
    }
}

/// The plans for the tiers of one term up to `tier`.
pub open spec fn tier_plans(q: Seq<char>, tier: int, typos: int) -> Seq<PlanView>
    decreases tier,
{
    if tier <= 0 {
        seq![PlanView::Term(q)]
    } else if in_use(q, tier, typos) {
        tier_plans(q, tier - 1, typos).push(tier_plan(q, tier))
    } else {
        tier_plans(q, tier - 1, typos)
    }
}

/// The plan for one term, up to `tier`.
pub open spec fn term_plan(q: Seq<char>, tier: int, typos: int) -> PlanView {
    let alts = tier_plans(q, tier, typos);
    if alts.len() == 1 {
        alts[0]
    } else {
        PlanView::Or(alts)
    }
}

/// The plans for every term.
pub open spec fn term_plans(words: Seq<Seq<char>>, tier: int, typos: int) -> Seq<PlanView> {
    Seq::new(words.len(), |i: int| term_plan(words[i], tier, typos))
}

impl SearchBox {
    /// The query's terms.
    pub closed spec fn words(&self) -> Seq<Seq<char>> {
        strings_view(self.terms@)
    }

    /// How many typos a term may have.
    pub closed spec fn typos(&self) -> int {
        self.max_typos as int
    }

    /// A document with these terms is at tier `tier` or better.
    pub open spec fn found(&self, terms: Set<Seq<char>>, tier: int) -> bool {
        &&& self.words().len() > 0
        &&& forall|i: int| 0 <= i < self.words().len() ==> term_found(#[trigger] self.words()[i], terms, tier, self.typos())
    }

    /// The plan for tiers up to `tier`.
    pub open spec fn plan_at(&self, tier: int) -> PlanView {
        let each = term_plans(self.words(), tier, self.typos());
        if each.len() == 0 {
            PlanView::Or(Seq::empty())
        } else if each.len() == 1 {
            each[0]
        } else {
            PlanView::And(each)
        }
    }

    pub fn parse(input: &str, analyzer: &mut Analyzer) -> (r: SearchBox)
        requires
            fits(input@),
        ensures
            r.typos() == 2,
            sorted_terms(r.words()),
            forall|t: Seq<char>| #[trigger] r.words().contains(t) <==> terms_of(input@).contains(t),
    {
        SearchBox { terms: analyzer.unique_terms(input), max_typos: 2 }
    }

    /// Allow at most `n` typos (0–2) per term, like Typesense's `num_typos`:
    /// fewer typo tiers, so a scan that must fill k rows stops sooner.
    pub fn with_max_typos(self, n: u8) -> (r: SearchBox)
        ensures
            r.words() == self.words(),
            r.typos() == if n < 2 { n as int } else { 2 },
    {
        SearchBox {
            terms: self.terms,
            max_typos: if n < 2 {
                n
            } else {
                2
            },
        }
    }

    fn allows(&self, q: &str, tier: u8) -> (r: bool)
        ensures
            r == in_use(q@, tier as int, self.typos()),
    {
        has_tier_of(chars_of(q).len(), tier) && (tier < 3 || tier - 2 <= self.max_typos)
    }

    /// Whether both ask the same.
    pub fn same(&self, other: &SearchBox) -> (r: bool)
        ensures
            r == (self.words() == other.words() && self.typos() == other.typos()),
    {
        let n: usize = self.terms.len();
        proof {
            assert(self.words().len() == n && other.words().len() == other.terms@.len());
        }
        if n != other.terms.len() || self.max_typos != other.max_typos {
            return false;
        }
        let mut i: usize = 0;
        while i < n
            invariant
                i <= n,
                n == self.terms@.len(),
                n == other.terms@.len(),
                self.words().len() == n,
                other.words().len() == n,
                forall|k: int| 0 <= k < i ==> #[trigger] self.words()[k] == other.words()[k],
            decreases n - i,
        {
            proof {
                assert(self.words()[i as int] == self.terms@[i as int]@);
                assert(other.words()[i as int] == other.terms@[i as int]@);
            }
            if self.terms[i] != other.terms[i] {
                return false;
            }
            i = i + 1;
        }
        proof {
            assert(self.words() =~= other.words());
        }
        true
    }

    pub fn terms(&self) -> (r: &Vec<String>)
        ensures
            strings_view(r@) == self.words(),
    {
        &self.terms
    }

    /// Whether some query term gains a way to match at `tier` (otherwise
    /// tier `tier` holds nothing new).
    pub fn has_tier(&self, tier: u8) -> (r: bool)
        ensures
            r == exists|i: int| 0 <= i < self.words().len() && in_use(#[trigger] self.words()[i], tier as int, self.typos()),
    {
        let n: usize = self.terms.len();
        proof {
            assert(self.words().len() == n);
        }
        if tier == 0 {
            proof {
                if n > 0 {
                    assert(in_use(self.words()[0], 0, self.typos()));
                }
            }
            return n > 0;
        }
        let mut i: usize = 0;
        while i < n
            invariant
                i <= n,
                n == self.terms@.len(),
                self.words().len() == n,
                forall|k: int| 0 <= k < i ==> !in_use(#[trigger] self.words()[k], tier as int, self.typos()),
            decreases n - i,
        {
            proof {
                assert(self.words()[i as int] == self.terms@[i as int]@);
            }
            if self.allows(self.terms[i].as_str(), tier) {
                return true;
            }
            i = i + 1;
        }
        false
    }

    /// The plan of one term.
    fn plan_of_term(&self, t: &String, tier: u8) -> (r: Plan)
        ensures
            r.view() == term_plan(t@, tier as int, self.typos()),
    {
        let mut alts: Vec<Plan> = Vec::new();
        alts.push(Plan::Term(copy_of(t)));
        let mut l: u8 = 0;
        proof {
            assert(plan_views(alts@) =~= tier_plans(t@, 0, self.typos()));
        }
        while l < tier
            invariant
                l <= tier,
                alts@.len() >= 1,
                plan_views(alts@) == tier_plans(t@, l as int, self.typos()),
            decreases tier - l,
        {
            l = l + 1;
            let ghost was = alts@;
            if self.allows(t.as_str(), l) {
                let p: Plan = match l {
                    1 => Plan::Prefix(copy_of(t)),
                    2 => Plan::Fragment(copy_of(t)),
                    3 => Plan::Fuzzy(copy_of(t), 1),
                    _ => Plan::Fuzzy(copy_of(t), 2),
                };
                proof {
                    assert(p.view() == tier_plan(t@, l as int));
                }
                alts.push(p);
                proof {
                    assert(plan_views(alts@) =~= plan_views(was).push(tier_plan(t@, l as int)));
                }
            }
        }
        let ghost views = plan_views(alts@);
        proof {
            assert(views.len() == alts@.len());
        }
        if alts.len() == 1 {
            proof {
                assert(views[0] == alts@[0].view());
            }
            let only: Option<Plan> = alts.pop();
            match only {
                Some(p) => p,
                None => vstd::pervasive::unreached(),
            }
        } else {
            let p: Plan = Plan::Or(alts);
            proof {
                lemma_plan_view(p);
            }
            p
        }
    }

    /// Documents at tier ≤ `tier`. Plans with fragments give candidates
    /// ([`Plan::needs_recheck`]).
    pub fn plan(&self, tier: u8) -> (r: Plan)
        ensures
            r.view() == self.plan_at(tier as int),
            runnable(r.view()),
            forall|terms: Set<Seq<char>>| #[trigger] plan_matches(r.view(), terms) <==> self.found(terms, tier as int),
    {
        let n: usize = self.terms.len();
        let mut each: Vec<Plan> = Vec::new();
        let mut i: usize = 0;
        proof {
            assert(self.words().len() == n);
        }
        while i < n
            invariant
                i <= n,
                n == self.terms@.len(),
                self.words().len() == n,
                each@.len() == i,
                forall|k: int| 0 <= k < i ==> (#[trigger] each@[k]).view() == term_plan(self.words()[k], tier as int, self.typos()),
            decreases n - i,
        {
            proof {
                assert(self.words()[i as int] == self.terms@[i as int]@);
            }
            each.push(self.plan_of_term(&self.terms[i], tier));
            i = i + 1;
        }
        proof {
            assert(plan_views(each@) =~= term_plans(self.words(), tier as int, self.typos()));
            lemma_plan_runs(*self, tier as int);
            assert forall|terms: Set<Seq<char>>| #[trigger] plan_matches(self.plan_at(tier as int), terms) <==> self.found(terms, tier as int) by {
                plan_is_tier(*self, terms, tier as int);
            }
        }
        if n == 0 {
            let none: Vec<Plan> = Vec::new();
            let p: Plan = Plan::Or(none);
            proof {
                lemma_plan_view(p);
                assert(plan_views(none@) =~= Seq::empty());
            }
            return p;
        }
        if n == 1 {
            let only: Option<Plan> = each.pop();
            return match only {
                Some(p) => p,
                None => vstd::pervasive::unreached(),
            };
        }
        let p: Plan = Plan::And(each);
        proof {
            lemma_plan_view(p);
        }
        p
    }

    /// The tier of a document with these (analyzed) terms, if it matches.
    pub fn tier_of_terms(&self, doc: &[String]) -> (r: Option<u8>)
        ensures
            match r {
                Some(t) => t <= MAX_TIER && is_tier(*self, strings_view(doc@).to_set(), t as int),
                None => forall|t: int| !self.found(strings_view(doc@).to_set(), t),
            },
    {
        let ghost terms = strings_view(doc@).to_set();
        let n: usize = self.terms.len();
        proof {
            assert(self.words().len() == n);
        }
        if n == 0 {
            return None;
        }
        let mut worst: u8 = 0;
        let mut i: usize = 0;
        while i < n
            invariant
                i <= n,
                0 < n == self.terms@.len(),
                self.words().len() == n,
                terms == strings_view(doc@).to_set(),
                worst <= MAX_TIER,
                forall|k: int| 0 <= k < i ==> term_found(#[trigger] self.words()[k], terms, worst as int, self.typos()),
                worst > 0 ==> exists|k: int| 0 <= k < i && !term_found(#[trigger] self.words()[k], terms, worst - 1, self.typos()),
            decreases n - i,
        {
            let ghost q = self.words()[i as int];
            let ghost before = worst;
            proof {
                assert(q == self.terms@[i as int]@);
            }
            match self.best_tier(self.terms[i].as_str(), doc) {
                None => {
                    proof {
                        assert forall|t: int| !self.found(terms, t) by {
                            if self.found(terms, t) {
                                assert(term_found(self.words()[i as int], terms, t, self.typos()));
                            }
                        }
                    }
                    return None;
                },
                Some(best) => {
                    if best > worst {
                        worst = best;
                    }
                    proof {
                        assert forall|k: int| 0 <= k < i + 1 implies term_found(#[trigger] self.words()[k], terms, worst as int, self.typos()) by {
                            if k < i {
                                lemma_found_mono(self.words()[k], terms, before as int, worst as int, self.typos());
                            } else {
                                lemma_found_mono(q, terms, best as int, worst as int, self.typos());
                            }
                        }
                        if worst > 0 {
                            if worst == best {
                                assert(!term_found(self.words()[i as int], terms, worst - 1, self.typos()));
                            } else {
                                let k = choose|k: int| 0 <= k < i && !term_found(#[trigger] self.words()[k], terms, worst - 1, self.typos());
                                assert(!term_found(self.words()[k], terms, worst - 1, self.typos()));
                            }
                        }
                    }
                },
            }
            i = i + 1;
        }
        proof {
            assert forall|t: int| self.found(terms, t) implies worst <= t by {
                if 0 <= t < worst && self.found(terms, t) {
                    let k = choose|k: int| 0 <= k < n && !term_found(#[trigger] self.words()[k], terms, worst - 1, self.typos());
                    assert(term_found(self.words()[k], terms, t, self.typos()));
                    lemma_found_mono(self.words()[k], terms, t, worst - 1, self.typos());
                }
                if t < 0 {
                    assert(term_found(self.words()[0], terms, t, self.typos()));
                }
            }
        }
        Some(worst)
    }

    pub fn tier_of_text(&self, text: &str, analyzer: &mut Analyzer) -> (r: Option<u8>)
        requires
            fits(text@),
        ensures
            match r {
                Some(t) => t <= MAX_TIER && is_tier(*self, terms_of(text@).to_set(), t as int),
                None => forall|t: int| !self.found(terms_of(text@).to_set(), t),
            },
    {
        let terms: Vec<String> = analyzer.unique_terms(text);
        proof {
            assert(strings_view(terms@).to_set() =~= terms_of(text@).to_set());
        }
        self.tier_of_terms(terms.as_slice())
    }

    /// The best tier at which a document term matches `q`.
    fn best_tier(&self, q: &str, doc: &[String]) -> (r: Option<u8>)
        ensures
            match r {
                Some(t) => {
                    &&& t <= MAX_TIER
                    &&& term_found(q@, strings_view(doc@).to_set(), t as int, self.typos())
                    &&& t > 0 ==> !term_found(q@, strings_view(doc@).to_set(), t - 1, self.typos())
                },
                None => forall|t: int| !term_found(q@, strings_view(doc@).to_set(), t, self.typos()),
            },
    {
        let ghost terms = strings_view(doc@).to_set();
        let mut best: Option<u8> = None;
        let mut i: usize = 0;
        while i < doc.len()
            invariant
                i <= doc@.len(),
                terms == strings_view(doc@).to_set(),
                match best {
                    Some(t) => {
                        &&& t <= MAX_TIER
                        &&& term_found(q@, terms, t as int, self.typos())
                        &&& forall|k: int| 0 <= k < i ==> !term_within(q@, #[trigger] strings_view(doc@)[k], t - 1, self.typos())
                    },
                    None => forall|k: int, t: int| 0 <= k < i ==> !#[trigger] term_within(q@, strings_view(doc@)[k], t, self.typos()),
                },
            decreases doc@.len() - i,
        {
            let ghost d = strings_view(doc@)[i as int];
            let ghost was = best;
            proof {
                assert(d == doc@[i as int]@);
                assert(strings_view(doc@).contains(d));
                assert(terms.contains(d));
            }
            if let Some(t) = self.term_tier(q, doc[i].as_str()) {
                let better: bool = match best {
                    Some(b) => t < b,
                    None => true,
                };
                if better {
                    best = Some(t);
                    proof {
                        assert forall|k: int| 0 <= k < i + 1 implies !term_within(q@, #[trigger] strings_view(doc@)[k], t - 1, self.typos()) by {
                            let e = strings_view(doc@)[k];
                            if k < i && term_within(q@, e, t - 1, self.typos()) {
                                match was {
                                    Some(b) => {
                                        lemma_within_mono(q@, e, t - 1, b - 1, self.typos());
                                    },
                                    None => {},
                                }
                            }
                        }
                    }
                } else {
                    proof {
                        let b = was->0;
                        if term_within(q@, d, b - 1, self.typos()) {
                            lemma_within_mono(q@, d, b - 1, t - 1, self.typos());
                        }
                    }
                }
            } else {
                proof {
                    assert(forall|t: int| !term_within(q@, d, t, self.typos()));
                }
            }
            i = i + 1;
        }
        proof {
            match best {
                Some(t) => {
                    if t > 0 && term_found(q@, terms, t - 1, self.typos()) {
                        let d = choose|d: Seq<char>| #[trigger] terms.contains(d) && term_within(q@, d, t - 1, self.typos());
                        let k = strings_view(doc@).index_of(d);
                        assert(strings_view(doc@)[k] == d);
                    }
                },
                None => {
                    assert forall|t: int| !term_found(q@, terms, t, self.typos()) by {
                        if term_found(q@, terms, t, self.typos()) {
                            let d = choose|d: Seq<char>| #[trigger] terms.contains(d) && term_within(q@, d, t, self.typos());
                            let k = strings_view(doc@).index_of(d);
                            assert(!term_within(q@, strings_view(doc@)[k], t, self.typos()));
                        }
                    }
                },
            }
        }
        best
    }

    /// How well document term `d` matches query term `q`.
    fn term_tier(&self, q: &str, d: &str) -> (r: Option<u8>)
        ensures
            match r {
                Some(t) => t <= MAX_TIER && term_within(q@, d@, t as int, self.typos()) && !term_within(q@, d@, t - 1, self.typos()),
                None => forall|t: int| !term_within(q@, d@, t, self.typos()),
            },
    {
        let b: &[u8] = d.as_bytes();
        proof {
            if encode_utf8(d@) == encode_utf8(q@) {
                lemma_encode_injective(d@, q@);
            }
        }
        let r: Option<u8> = if is_bytes_of(b, q) {
            Some(0)
        } else if may_start(b, q) && starts_with(chars_of(d).as_slice(), chars_of(q).as_slice()) {
            Some(1)
        } else if self.allows(q, 2) && may_occur(b, q) && contains(chars_of(d).as_slice(), chars_of(q).as_slice()) {
            Some(2)
        } else if self.allows(q, 3) && osa_within(d, q, 1) {
            Some(3)
        } else if self.allows(q, 4) && osa_within(d, q, 2) {
            Some(4)
        } else {
            None
        };
        proof {
            if let Some(t) = r {
                assert(in_use(q@, t as int, self.typos()) && holds_at(q@, d@, t as int));
            }
        }
        r
    }
}

/// `t` is the best tier of a document with these terms.
pub open spec fn is_tier(q: SearchBox, terms: Set<Seq<char>>, t: int) -> bool {
    q.found(terms, t) && forall|k: int| #[trigger] q.found(terms, k) ==> t <= k
}

fn has_tier_of(n: usize, tier: u8) -> (r: bool)
    ensures
        r == term_has_tier(n as int, tier as int),
{
    match tier {
        0 | 1 => true,
        2 => n >= FRAGMENT_MIN,
        3 => n >= TYPO1_MIN,
        4 => n >= TYPO2_MIN,
        _ => false,
    }
}

proof fn lemma_within_mono(q: Seq<char>, d: Seq<char>, a: int, b: int, typos: int)
    requires
        a <= b,
        term_within(q, d, a, typos),
    ensures
        term_within(q, d, b, typos),
{
    let k = choose|k: int| 0 <= k <= a && #[trigger] in_use(q, k, typos) && holds_at(q, d, k);
    assert(in_use(q, k, typos) && holds_at(q, d, k));
}

proof fn lemma_found_mono(q: Seq<char>, terms: Set<Seq<char>>, a: int, b: int, typos: int)
    requires
        a <= b,
        term_found(q, terms, a, typos),
    ensures
        term_found(q, terms, b, typos),
{
    let d = choose|d: Seq<char>| #[trigger] terms.contains(d) && term_within(q, d, a, typos);
    lemma_within_mono(q, d, a, b, typos);
}

/// The alternatives are those of the tiers in use.
proof fn lemma_tier_plans(q: Seq<char>, tier: int, typos: int)
    requires
        0 <= tier,
    ensures
        tier_plans(q, tier, typos).len() >= 1,
        forall|i: int| 0 <= i < tier_plans(q, tier, typos).len() ==> exists|k: int|
            0 <= k <= tier && #[trigger] in_use(q, k, typos) && (#[trigger] tier_plans(q, tier, typos)[i]) == tier_plan(q, k),
        forall|k: int| 0 <= k <= tier && #[trigger] in_use(q, k, typos) ==> tier_plans(q, tier, typos).contains(tier_plan(q, k)),
    decreases tier,
{
    let all = tier_plans(q, tier, typos);
    if tier == 0 {
        assert(in_use(q, 0, typos));
        assert(all[0] == tier_plan(q, 0));
        assert(all.contains(tier_plan(q, 0)));
    } else {
        lemma_tier_plans(q, tier - 1, typos);
        let less = tier_plans(q, tier - 1, typos);
        assert forall|i: int| 0 <= i < all.len() implies exists|k: int|
            0 <= k <= tier && #[trigger] in_use(q, k, typos) && (#[trigger] all[i]) == tier_plan(q, k) by {
            if i < less.len() {
                let k = choose|k: int| 0 <= k <= tier - 1 && #[trigger] in_use(q, k, typos) && less[i] == tier_plan(q, k);
                assert(in_use(q, k, typos) && all[i] == tier_plan(q, k));
            } else {
                assert(in_use(q, tier, typos) && all[i] == tier_plan(q, tier));
            }
        }
        assert forall|k: int| 0 <= k <= tier && #[trigger] in_use(q, k, typos) implies all.contains(tier_plan(q, k)) by {
            if k < tier {
                let i = less.index_of(tier_plan(q, k));
                assert(all[i] == tier_plan(q, k));
            } else {
                assert(all[all.len() - 1] == tier_plan(q, tier));
            }
        }
    }
}

proof fn lemma_tier_plan(q: Seq<char>, terms: Set<Seq<char>>, k: int, typos: int)
    requires
        0 <= k,
        in_use(q, k, typos),
    ensures
        plan_matches(tier_plan(q, k), terms) <==> exists|d: Seq<char>| #[trigger] terms.contains(d) && holds_at(q, d, k),
{
    let p = tier_plan(q, k);
    assert(plan_matches(p, terms) == some_accepted(p, terms));
    assert(forall|d: Seq<char>| #[trigger] plan_accepts(p, d) == holds_at(q, d, k));
}

proof fn lemma_term_plan(q: Seq<char>, terms: Set<Seq<char>>, tier: int, typos: int)
    requires
        0 <= tier,
    ensures
        plan_matches(term_plan(q, tier, typos), terms) <==> term_found(q, terms, tier, typos),
        runnable(term_plan(q, tier, typos)),
{
    let alts = tier_plans(q, tier, typos);
    lemma_tier_plans(q, tier, typos);
    lemma_plan_parts(alts, terms);
    lemma_runnable_parts(alts);
    let p = term_plan(q, tier, typos);
    assert forall|i: int| 0 <= i < alts.len() implies runnable(#[trigger] alts[i]) by {
        let k = choose|k: int| 0 <= k <= tier && #[trigger] in_use(q, k, typos) && alts[i] == tier_plan(q, k);
        assert(alts[i] == tier_plan(q, k));
    }
    assert(plan_matches(p, terms) <==> exists|i: int| 0 <= i < alts.len() && plan_matches(#[trigger] alts[i], terms)) by {
        if alts.len() == 1 {
            assert(p == alts[0]);
        }
    }
    if plan_matches(p, terms) {
        let i = choose|i: int| 0 <= i < alts.len() && plan_matches(#[trigger] alts[i], terms);
        let k = choose|k: int| 0 <= k <= tier && #[trigger] in_use(q, k, typos) && alts[i] == tier_plan(q, k);
        lemma_tier_plan(q, terms, k, typos);
        let d = choose|d: Seq<char>| #[trigger] terms.contains(d) && holds_at(q, d, k);
        assert(term_within(q, d, tier, typos));
    }
    if term_found(q, terms, tier, typos) {
        let d = choose|d: Seq<char>| #[trigger] terms.contains(d) && term_within(q, d, tier, typos);
        let k = choose|k: int| 0 <= k <= tier && #[trigger] in_use(q, k, typos) && holds_at(q, d, k);
        lemma_tier_plan(q, terms, k, typos);
        let i = alts.index_of(tier_plan(q, k));
        assert(plan_matches(alts[i], terms));
    }
}

proof fn lemma_plan_runs(q: SearchBox, tier: int)
    requires
        0 <= tier,
    ensures
        runnable(q.plan_at(tier)),
{
    let each = term_plans(q.words(), tier, q.typos());
    assert forall|i: int| 0 <= i < each.len() implies runnable(#[trigger] each[i]) by {
        lemma_term_plan(q.words()[i], Set::empty(), tier, q.typos());
    }
    lemma_runnable_parts(each);
    lemma_runnable_parts(Seq::empty());
}

// ---------------------------------------------------------------------------
// Laws
// ---------------------------------------------------------------------------

/// The plan for a tier matches exactly the documents at that tier or better.
pub proof fn plan_is_tier(q: SearchBox, terms: Set<Seq<char>>, tier: int)
    requires
        0 <= tier,
    ensures
        plan_matches(q.plan_at(tier), terms) <==> q.found(terms, tier),
{
    let each = term_plans(q.words(), tier, q.typos());
    lemma_plan_parts(each, terms);
    lemma_plan_parts(Seq::empty(), terms);
    assert forall|i: int| 0 <= i < each.len() implies (plan_matches(#[trigger] each[i], terms) <==> term_found(q.words()[i], terms, tier, q.typos())) by {
        lemma_term_plan(q.words()[i], terms, tier, q.typos());
    }
    if each.len() == 1 {
        assert(q.plan_at(tier) == each[0]);
        assert(plan_matches(each[0], terms) <==> term_found(q.words()[0], terms, tier, q.typos()));
    } else if each.len() > 1 {
        if plan_matches(q.plan_at(tier), terms) {
            assert forall|i: int| 0 <= i < q.words().len() implies term_found(#[trigger] q.words()[i], terms, tier, q.typos()) by {
                assert(plan_matches(each[i], terms));
            }
        }
    }
}

/// A document at a tier is found at every worse tier too.
pub proof fn tiers_are_nested(q: SearchBox, terms: Set<Seq<char>>, a: int, b: int)
    requires
        a <= b,
        q.found(terms, a),
    ensures
        q.found(terms, b),
{
    assert forall|i: int| 0 <= i < q.words().len() implies term_found(#[trigger] q.words()[i], terms, b, q.typos()) by {
        lemma_found_mono(q.words()[i], terms, a, b, q.typos());
    }
}

/// Which tiers a term has goes by its length and by how many typos are allowed:
/// every term is matched exactly and as a prefix, one of three characters or
/// more as a fragment, one of four or more with a typo, and one of seven or more
/// with two.
pub proof fn tiers_go_by_length(q: Seq<char>, tier: int, typos: int)
    ensures
        in_use(q, tier, typos) <==> {
            ||| tier == 0
            ||| tier == 1
            ||| tier == 2 && q.len() >= 3
            ||| tier == 3 && q.len() >= 4 && typos >= 1
            ||| tier == 4 && q.len() >= 7 && typos >= 2
        },
{
}

/// How document term `d` may match query term `q` up to `tier`: as it is, with
/// something behind it, with something around it, after one edit, or within two.
pub open spec fn matched_by(q: Seq<char>, d: Seq<char>, tier: int, typos: int) -> bool {
    ||| tier >= 0 && d == q
    ||| tier >= 1 && exists|rest: Seq<char>| d == #[trigger] (q + rest)
    ||| tier >= 2 && q.len() >= 3 && exists|a: Seq<char>, b: Seq<char>| d == #[trigger] (a + q + b)
    ||| tier >= 3 && q.len() >= 4 && typos >= 1 && one_edit(encode_utf8(d), encode_utf8(q))
    ||| tier >= 4 && q.len() >= 7 && typos >= 2 && osa_distance(encode_utf8(d), encode_utf8(q)) <= 2
}

/// Some term of a document matches `q` so.
pub open spec fn is_matched(q: Seq<char>, terms: Set<Seq<char>>, tier: int, typos: int) -> bool {
    exists|d: Seq<char>| #[trigger] terms.contains(d) && matched_by(q, d, tier, typos)
}

/// A document is at a tier or better exactly if the query has a term and each of
/// its terms is matched so by one of the document's.
pub proof fn tiers_say_how_terms_match(b: SearchBox, terms: Set<Seq<char>>, tier: int)
    ensures
        b.found(terms, tier) <==> b.words().len() > 0 && forall|i: int|
            0 <= i < b.words().len() ==> is_matched(#[trigger] b.words()[i], terms, tier, b.typos()),
{
    let typos = b.typos();
    assert forall|q: Seq<char>, d: Seq<char>| term_within(q, d, tier, typos) <==> matched_by(q, d, tier, typos) by {
        starts_with_what_leads(d, q);
        contains_what_stands_inside(d, q);
        one_edit_is_distance_one(encode_utf8(d), encode_utf8(q));
        if term_within(q, d, tier, typos) {
            let k = choose|k: int| 0 <= k <= tier && #[trigger] in_use(q, k, typos) && holds_at(q, d, k);
            tiers_go_by_length(q, k, typos);
        }
        if matched_by(q, d, tier, typos) {
            let k: int = if tier >= 0 && d == q {
                0
            } else if tier >= 1 && exists|rest: Seq<char>| d == #[trigger] (q + rest) {
                1
            } else if tier >= 2 && q.len() >= 3 && exists|x: Seq<char>, y: Seq<char>| d == #[trigger] (x + q + y) {
                2
            } else if tier >= 3 && q.len() >= 4 && typos >= 1 && one_edit(encode_utf8(d), encode_utf8(q)) {
                3
            } else {
                4
            };
            tiers_go_by_length(q, k, typos);
            assert(in_use(q, k, typos) && holds_at(q, d, k));
        }
    }
    if b.found(terms, tier) {
        assert forall|i: int| 0 <= i < b.words().len() implies is_matched(#[trigger] b.words()[i], terms, tier, typos) by {
            assert(term_found(b.words()[i], terms, tier, typos));
            let d = choose|d: Seq<char>| #[trigger] terms.contains(d) && term_within(b.words()[i], d, tier, typos);
            assert(terms.contains(d) && matched_by(b.words()[i], d, tier, typos));
        }
    }
    if b.words().len() > 0 && forall|i: int| 0 <= i < b.words().len() ==> is_matched(#[trigger] b.words()[i], terms, tier, typos) {
        assert forall|i: int| 0 <= i < b.words().len() implies term_found(#[trigger] b.words()[i], terms, tier, typos) by {
            assert(is_matched(b.words()[i], terms, tier, typos));
            let d = choose|d: Seq<char>| #[trigger] terms.contains(d) && matched_by(b.words()[i], d, tier, typos);
            assert(terms.contains(d) && term_within(b.words()[i], d, tier, typos));
        }
    }
}

/// A document with a term that is one edit away from a query of one term of four
/// characters or more is found, at the tier of one typo or better.
pub proof fn one_typo_is_found(b: SearchBox, terms: Set<Seq<char>>, d: Seq<char>)
    requires
        b.words().len() == 1,
        b.words()[0].len() >= 4,
        b.typos() >= 1,
        terms.contains(d),
        one_edit(encode_utf8(d), encode_utf8(b.words()[0])),
    ensures
        b.found(terms, 3),
        plan_matches(b.plan_at(3), terms),
{
    tiers_say_how_terms_match(b, terms, 3);
    assert forall|i: int| 0 <= i < b.words().len() implies is_matched(#[trigger] b.words()[i], terms, 3, b.typos()) by {
        assert(terms.contains(d) && matched_by(b.words()[i], d, 3, b.typos()));
    }
    plan_is_tier(b, terms, 3);
}

} // verus!
