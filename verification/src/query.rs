//! Queries, what they mean, and their index plans.
//!
//! ```text
//! denim jeans              both terms (implicit AND; also denim AND jeans)
//! denim OR chino           either
//! denim AND NOT stretch    denim but not stretch (also: denim -stretch,
//!                          denim NOT stretch)
//! (denim OR chino) blue    grouping
//! [denim chino corduroy]   alternatives: any of them (commas optional)
//! "raw denim jacket"       a phrase: consecutive words, in order
//! "big _ wolf"             `_` skips exactly one word
//! "[big large] bad wolf"   alternatives for one position
//! "big bad wolf"~2         up to 2 extra words anywhere in the phrase
//! craft THEN/3 beer        beer after craft, at most 3 words between
//! craft NEAR/3 beer        the same in either order
//! AT LEAST 2 OF [a b c]    at least 2 of the items (also 50%; ALL OF [...])
//! beer^2 "craft beer"^0.5  boost: scales the item's weight in scores
//! msku12*                  a term starting with "msku12"
//! *1234565*                a term containing "1234565" (also *1234565)
//! msku1243565~             a term within 1 edit (~2: two edits); a swap of
//!                          neighbouring characters counts as one edit
//! ```
//!
//! The index answers term-level questions only, so phrases, proximity and
//! `AT LEAST` are planned as a superset (the terms they need) and rechecked
//! against the row's word positions ([`Query::matches_text`]); see
//! [`crate::span`].

use vstd::prelude::*;
use crate::interval::minimal;
use crate::pattern::within;
use crate::span::DocWords;
use crate::text::{contains, occurs, starts, fits};
use crate::tokenize::{tokens_of, Analyzer};
use crate::windows::{cover_windows, offsets_ok, phrase_windows, reaches};
use crate::interval::near_windows;

verus! {

/// A number as it was written: digits, at most one point, and an exponent.
#[derive(Debug, PartialEq)]
pub struct Weight {
    pub text: String,
}

#[derive(Debug, PartialEq)]
pub enum Query {
    Term(String),
    Prefix(String),
    Fragment(String),
    Fuzzy(String, u8),
    And(Vec<Query>),
    Or(Vec<Query>),
    Not(Box<Query>),
    /// Slots at fixed word offsets (the first at 0), each matched by any of
    /// its alternatives (single-term items), with up to `slop` extra words.
    Phrase { slots: Vec<Slot>, slop: u32 },
    /// `right` after `left` (or either order, unless `ordered`) with at most
    /// `gap` words between.
    Near { left: Box<Query>, right: Box<Query>, gap: u32, ordered: bool },
    /// At least `min` of the items (2 <= `min` < `of.len()`).
    AtLeast { min: usize, of: Vec<Query> },
    /// Scales the item's weight in scores; matching is unchanged.
    Boost(Box<Query>, Weight),
}

#[derive(Debug, PartialEq)]
pub struct Slot {
    pub offset: u32,
    /// Terms or patterns.
    pub alts: Vec<Query>,
}

/// What a [`Query`] says.
pub ghost enum QueryView {
    Term(Seq<char>),
    Prefix(Seq<char>),
    Fragment(Seq<char>),
    Fuzzy(Seq<char>, int),
    And(Seq<QueryView>),
    Or(Seq<QueryView>),
    Not(Box<QueryView>),
    Phrase { slots: Seq<SlotView>, slop: int },
    Near { left: Box<QueryView>, right: Box<QueryView>, gap: int, ordered: bool },
    AtLeast { min: int, of: Seq<QueryView> },
    Boost(Box<QueryView>, Seq<char>),
}

/// What a [`Slot`] says.
pub ghost struct SlotView {
    pub offset: int,
    pub alts: Seq<QueryView>,
}

impl Query {
    pub open spec fn view(self) -> QueryView
        decreases self,
    {
        match self {
            Query::Term(t) => QueryView::Term(t@),
            Query::Prefix(t) => QueryView::Prefix(t@),
            Query::Fragment(t) => QueryView::Fragment(t@),
            Query::Fuzzy(t, k) => QueryView::Fuzzy(t@, k as int),
            Query::And(cs) => QueryView::And(Seq::new(cs@.len(), |i: int| if 0 <= i < cs@.len() { cs@[i].view() } else { arbitrary() })),
            Query::Or(cs) => QueryView::Or(Seq::new(cs@.len(), |i: int| if 0 <= i < cs@.len() { cs@[i].view() } else { arbitrary() })),
            Query::Not(q) => QueryView::Not(Box::new(q.view())),
            Query::Phrase { slots, slop } => QueryView::Phrase {
                slots: Seq::new(
                    slots@.len(),
                    |i: int| if 0 <= i < slots@.len() { slots@[i].view() } else { arbitrary() },
                ),
                slop: slop as int,
            },
            Query::Near { left, right, gap, ordered } => QueryView::Near {
                left: Box::new(left.view()),
                right: Box::new(right.view()),
                gap: gap as int,
                ordered,
            },
            Query::AtLeast { min, of } => QueryView::AtLeast {
                min: min as int,
                of: Seq::new(of@.len(), |i: int| if 0 <= i < of@.len() { of@[i].view() } else { arbitrary() }),
            },
            Query::Boost(q, w) => QueryView::Boost(Box::new(q.view()), w.text@),
        }
    }
}

impl Slot {
    pub open spec fn view(self) -> SlotView
        decreases self,
    {
        SlotView {
            offset: self.offset as int,
            alts: Seq::new(self.alts@.len(), |i: int| if 0 <= i < self.alts@.len() { self.alts@[i].view() } else { arbitrary() }),
        }
    }
}

/// What a list of queries says.
pub open spec fn query_views(s: Seq<Query>) -> Seq<QueryView> {
    Seq::new(s.len(), |i: int| s[i].view())
}

/// What a list of slots says.
pub open spec fn slot_views(s: Seq<Slot>) -> Seq<SlotView> {
    Seq::new(s.len(), |i: int| s[i].view())
}

/// The views of a query's parts are the parts' views.
pub proof fn lemma_query_view(q: Query)
    ensures
        match q {
            Query::And(cs) => q.view() == QueryView::And(query_views(cs@)),
            Query::Or(cs) => q.view() == QueryView::Or(query_views(cs@)),
            Query::AtLeast { min, of } => q.view() == (QueryView::AtLeast { min: min as int, of: query_views(of@) }),
            Query::Phrase { slots, slop } => q.view() == (QueryView::Phrase { slots: slot_views(slots@), slop: slop as int }),
            _ => true,
        },
{
    match q {
        Query::And(cs) => {
            assert(q.view()->And_0 =~= query_views(cs@));
        },
        Query::Or(cs) => {
            assert(q.view()->Or_0 =~= query_views(cs@));
        },
        Query::AtLeast { min, of } => {
            assert(q.view()->of =~= query_views(of@));
        },
        Query::Phrase { slots, slop } => {
            assert(q.view()->slots =~= slot_views(slots@));
        },
        _ => {},
    }
}

pub proof fn lemma_slot_view(s: Slot)
    ensures
        s.view() == (SlotView { offset: s.offset as int, alts: query_views(s.alts@) }),
{
    assert(s.view().alts =~= query_views(s.alts@));
}

impl QueryView {
    /// A conjunction has an operand, phrases have slots whose offsets do not
    /// descend, and a threshold lies between 2 and the number of items.
    pub open spec fn valid(self) -> bool
        decreases self,
    {
        match self {
            QueryView::And(cs) => cs.len() >= 1 && forall|i: int| 0 <= i < cs.len() ==> (#[trigger] cs[i]).valid(),
            QueryView::Or(cs) => forall|i: int| 0 <= i < cs.len() ==> (#[trigger] cs[i]).valid(),
            QueryView::Not(q) => q.valid(),
            QueryView::Phrase { slots, slop } => {
                &&& offsets_ok(slot_offsets(slots))
                &&& forall|i: int, j: int| 0 <= i < slots.len() && 0 <= j < slots[i].alts.len() ==> (#[trigger] slots[i].alts[j]).valid()
            },
            QueryView::Near { left, right, gap, ordered } => left.valid() && right.valid(),
            QueryView::AtLeast { min, of } => 2 <= min < of.len() && forall|i: int| 0 <= i < of.len() ==> (#[trigger] of[i]).valid(),
            QueryView::Boost(q, w) => q.valid(),
            _ => true,
        }
    }

    /// A term or a pattern of one term.
    pub open spec fn is_leaf(self) -> bool {
        self is Term || self is Prefix || self is Fragment || self is Fuzzy
    }

    /// Whether answering needs word positions or counts.
    pub open spec fn positional(self) -> bool
        decreases self,
    {
        match self {
            QueryView::Phrase { .. } => true,
            QueryView::Near { .. } => true,
            QueryView::AtLeast { .. } => true,
            QueryView::And(cs) => exists|i: int| 0 <= i < cs.len() && (#[trigger] cs[i]).positional(),
            QueryView::Or(cs) => exists|i: int| 0 <= i < cs.len() && (#[trigger] cs[i]).positional(),
            QueryView::Not(q) => q.positional(),
            QueryView::Boost(q, w) => q.positional(),
            _ => false,
        }
    }
}

/// The slots' offsets.
pub open spec fn slot_offsets(slots: Seq<SlotView>) -> Seq<int> {
    slots.map_values(|s: SlotView| s.offset)
}

// ---------------------------------------------------------------------------
// What a query means
// ---------------------------------------------------------------------------

/// A document: its terms with their word positions.
pub type Doc = Seq<(Seq<char>, int)>;

/// Whether a term or pattern accepts a term.
pub open spec fn accepts(q: QueryView, t: Seq<char>) -> bool {
    match q {
        QueryView::Term(x) => t == x,
        QueryView::Prefix(p) => starts(t, p),
        QueryView::Fragment(f) => occurs(t, f),
        QueryView::Fuzzy(x, k) => within(t, x, k),
        _ => false,
    }
}

/// A word that a term or pattern accepts stands at `p`.
pub open spec fn stands(q: QueryView, doc: Doc, p: int) -> bool {
    exists|i: int| 0 <= i < doc.len() && (#[trigger] doc[i]).1 == p && accepts(q, doc[i].0)
}

/// The positions that one of a slot's alternatives accepts.
pub open spec fn slot_set(s: SlotView, doc: Doc) -> Set<int> {
    Set::new(|p: int| exists|a: int| 0 <= a < s.alts.len() && stands(#[trigger] s.alts[a], doc, p))
}

/// The positions of each slot.
pub open spec fn slot_sets(slots: Seq<SlotView>, doc: Doc) -> Seq<Set<int>> {
    slots.map_values(|s: SlotView| slot_set(s, doc))
}

/// The minimal intervals of word positions where a query is satisfied: an
/// interval is kept only if it contains no other one.
///
/// A term gives one interval per occurrence; `AND` the minimal windows
/// holding one interval of each operand; `OR` the minimal intervals of the
/// union; a phrase or `THEN/N` the minimal windows with the operands in order
/// and close enough. Negation is document-level: `a AND NOT b` has `a`'s
/// intervals if `b` has none.
pub open spec fn spans(q: QueryView, doc: Doc) -> Set<(int, int)>
    decreases q,
{
    match q {
        QueryView::Boost(inner, w) => spans(*inner, doc),
        QueryView::Not(n) => Set::empty(),
        QueryView::Or(cs) => minimal(union_all(spans_each(cs, doc))),
        QueryView::And(cs) => if denied(cs, operands_each(cs, doc)) {
            Set::empty()
        } else {
            minimal(all_windows(cs, operands_each(cs, doc)))
        },
        QueryView::AtLeast { min, of } => minimal(cover_windows(spans_each(of, doc), min)),
        QueryView::Phrase { slots, slop } => minimal(phrase_windows(slot_sets(slots, doc), slot_offsets(slots), slop)),
        QueryView::Near { left, right, gap, ordered } => minimal(
            near_windows(spans(*left, doc), spans(*right, doc), gap, ordered),
        ),
        _ => points(q, doc),
    }
}

/// One interval per word that a term or pattern accepts.
pub open spec fn points(q: QueryView, doc: Doc) -> Set<(int, int)> {
    Set::new(|x: (int, int)| x.0 == x.1 && stands(q, doc, x.0))
}

/// The intervals of each query.
pub open spec fn spans_each(cs: Seq<QueryView>, doc: Doc) -> Seq<Set<(int, int)>>
    decreases cs,
{
    Seq::new(cs.len(), |i: int| if 0 <= i < cs.len() { spans(cs[i], doc) } else { Set::empty() })
}

/// The intervals of each operand of an `AND`, of what it negates for one that
/// is a negation.
pub open spec fn operands_each(cs: Seq<QueryView>, doc: Doc) -> Seq<Set<(int, int)>>
    decreases cs,
{
    Seq::new(
        cs.len(),
        |i: int|
            if 0 <= i < cs.len() {
                match cs[i] {
                    QueryView::Not(n) => spans(*n, doc),
                    _ => spans(cs[i], doc),
                }
            } else {
                Set::empty()
            },
    )
}

/// The intervals of any of the sets.
pub open spec fn union_all(ls: Seq<Set<(int, int)>>) -> Set<(int, int)> {
    Set::new(|x: (int, int)| exists|i: int| 0 <= i < ls.len() && (#[trigger] ls[i]).contains(x))
}

/// A negated operand has an interval.
pub open spec fn denied(cs: Seq<QueryView>, ls: Seq<Set<(int, int)>>) -> bool {
    exists|i: int, x: (int, int)| 0 <= i < cs.len() && (cs[i] is Not) && #[trigger] ls[i].contains(x)
}

/// The windows that hold an interval of every operand that is not a negation
/// (none, if all are).
pub open spec fn all_windows(cs: Seq<QueryView>, ls: Seq<Set<(int, int)>>) -> Set<(int, int)> {
    Set::new(
        |x: (int, int)|
            {
                &&& 0 <= x.0 <= x.1
                &&& exists|i: int| 0 <= i < cs.len() && !((#[trigger] cs[i]) is Not)
                &&& forall|i: int| 0 <= i < cs.len() && !((#[trigger] cs[i]) is Not) ==> reaches(ls[i], x)
            },
    )
}

/// Whether a document matches: the query has an interval.
pub open spec fn satisfied(q: QueryView, doc: Doc) -> bool {
    exists|x: (int, int)| spans(q, doc).contains(x)
}

/// The terms of a text with their positions.
pub open spec fn doc_of(text: Seq<char>) -> Doc {
    Seq::new(tokens_of(text).len(), |i: int| (tokens_of(text)[i].term, tokens_of(text)[i].pos))
}

/// Positions to highlight: every occurrence of a positive term, except that
/// terms of a phrase or proximity item count only inside its matches.
pub open spec fn marks(q: QueryView, doc: Doc) -> Set<int>
    decreases q,
{
    match q {
        QueryView::Not(n) => Set::empty(),
        QueryView::Boost(inner, w) => marks(*inner, doc),
        QueryView::And(cs) => any_mark(marks_each(cs, doc)),
        QueryView::Or(cs) => any_mark(marks_each(cs, doc)),
        QueryView::AtLeast { min, of } => any_mark(marks_each(of, doc)),
        QueryView::Phrase { slots, slop } => held(spans(q, doc), any_mark(slot_marks(slots, doc))),
        QueryView::Near { left, right, gap, ordered } => held(spans(q, doc), marks(*left, doc).union(marks(*right, doc))),
        _ => Set::new(|p: int| stands(q, doc, p)),
    }
}

/// The marks of each query.
pub open spec fn marks_each(cs: Seq<QueryView>, doc: Doc) -> Seq<Set<int>>
    decreases cs,
{
    Seq::new(cs.len(), |i: int| if 0 <= i < cs.len() { marks(cs[i], doc) } else { Set::empty() })
}

/// The marks of each slot.
pub open spec fn slot_marks(slots: Seq<SlotView>, doc: Doc) -> Seq<Set<int>>
    decreases slots,
{
    Seq::new(slots.len(), |i: int| if 0 <= i < slots.len() { any_mark(marks_each(slots[i].alts, doc)) } else { Set::empty() })
}

/// The positions of any of the sets.
pub open spec fn any_mark(ls: Seq<Set<int>>) -> Set<int> {
    Set::new(|p: int| exists|i: int| 0 <= i < ls.len() && (#[trigger] ls[i]).contains(p))
}

/// The positions that lie inside an interval.
pub open spec fn held(s: Set<(int, int)>, m: Set<int>) -> Set<int> {
    Set::new(|p: int| m.contains(p) && inside(s, p))
}

/// A position inside one of the intervals.
pub open spec fn inside(s: Set<(int, int)>, p: int) -> bool {
    exists|x: (int, int)| #[trigger] s.contains(x) && x.0 <= p <= x.1
}

impl Query {
    /// Whether answering needs word positions or counts the index doesn't
    /// have (so index results are candidates).
    pub fn is_positional(&self) -> (r: bool)
        ensures
            r == self.view().positional(),
        decreases self,
    {
        proof {
            lemma_query_view(*self);
        }
        match self {
            Query::Term(_) | Query::Prefix(_) | Query::Fragment(_) | Query::Fuzzy(_, _) => false,
            Query::Phrase { .. } | Query::Near { .. } | Query::AtLeast { .. } => true,
            Query::And(cs) => {
                let r: bool = any_positional(cs);
                proof {
                    lemma_parts(query_views(cs@));
                }
                r
            },
            Query::Or(cs) => {
                let r: bool = any_positional(cs);
                proof {
                    lemma_parts(query_views(cs@));
                }
                r
            },
            Query::Not(q) => q.is_positional(),
            Query::Boost(q, _) => q.is_positional(),
        }
    }

    /// Whether `text` matches: the exact answer, with word positions (the
    /// recheck and sequential-scan path).
    pub fn matches_text(&self, text: &str, analyzer: &mut Analyzer) -> (r: bool)
        requires
            self.view().valid(),
            fits(text@),
        ensures
            r == satisfied(self.view(), doc_of(text@)),
    {
        DocWords::new(text, analyzer).matches(self)
    }
}

/// What holds of a list of operands holds of the operands.
pub proof fn lemma_parts(cs: Seq<QueryView>)
    ensures
        QueryView::And(cs).positional() == exists|i: int| 0 <= i < cs.len() && (#[trigger] cs[i]).positional(),
        QueryView::Or(cs).positional() == exists|i: int| 0 <= i < cs.len() && (#[trigger] cs[i]).positional(),
        QueryView::And(cs).valid() == (cs.len() >= 1 && forall|i: int| 0 <= i < cs.len() ==> (#[trigger] cs[i]).valid()),
        QueryView::Or(cs).valid() == forall|i: int| 0 <= i < cs.len() ==> (#[trigger] cs[i]).valid(),
{
    let (a, o) = (QueryView::And(cs), QueryView::Or(cs));
    assert(a->And_0 == cs && o->Or_0 == cs);
    assert(a.positional() == exists|i: int| 0 <= i < a->And_0.len() && (#[trigger] a->And_0[i]).positional());
    assert(o.positional() == exists|i: int| 0 <= i < o->Or_0.len() && (#[trigger] o->Or_0[i]).positional());
    assert(a.valid() == (a->And_0.len() >= 1 && forall|i: int| 0 <= i < a->And_0.len() ==> (#[trigger] a->And_0[i]).valid()));
    assert(o.valid() == forall|i: int| 0 <= i < o->Or_0.len() ==> (#[trigger] o->Or_0[i]).valid());
}

fn any_positional(cs: &Vec<Query>) -> (r: bool)
    ensures
        r == exists|i: int| 0 <= i < cs@.len() && (#[trigger] query_views(cs@)[i]).positional(),
    decreases cs,
{
    let mut i: usize = 0;
    while i < cs.len()
        invariant
            i <= cs@.len(),
            forall|k: int| 0 <= k < i ==> !(#[trigger] query_views(cs@)[k]).positional(),
        decreases cs@.len() - i,
    {
        proof {
            assert(query_views(cs@)[i as int] == cs@[i as int].view());
        }
        if cs[i].is_positional() {
            return true;
        }
        i = i + 1;
    }
    false
}

} // verus!
