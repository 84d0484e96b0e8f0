//! Positional evaluation of a [`Query`] against one document: the exact
//! answer for phrases, `THEN/N` / `NEAR/N` and `AT LEAST`, which the index
//! only narrows down to candidates.
//!
//! Every query node denotes the set of **minimal intervals** of word
//! positions where it is satisfied; see [`crate::query::spans`]. A document
//! matches if the root's set is non-empty.

use vstd::prelude::*;
use crate::interval::{forward, in_order, lemma_antichain_minimal, lemma_spans_concat, minimal, minimize, near, span_view, spans_of, within, Span};
use crate::pattern::osa_within;
use crate::query::{
    accepts, all_windows, denied, any_mark, doc_of, held, inside, marks, marks_each, operands_each, slot_marks, points,
    spans_each, union_all, lemma_query_view, lemma_slot_view, satisfied, query_views, slot_offsets, slot_set, slot_sets,
    slot_views, spans, stands, Doc, Query, QueryView, Slot,
};
use crate::terms::TermTable;
use crate::text::{chars_of, contains, fits, is_low, starts_with};
use crate::tokenize::{all_low, all_plain, ascii_lower, is_control, for_each_word, fold, is_kept, kept_terms, tokens_of_words, words_from, words_view, Analyzer, MAX_TERM_BYTES};
use crate::windows::{ascends, count_in, cover, cover_windows, ints, list_sets, phrase, position_sets, positions_of, reaches};
use crate::words;
use crate::words::bit;

verus! {

// ---------------------------------------------------------------------------
// Which terms a query looks at
// ---------------------------------------------------------------------------

/// Some term or pattern of the query accepts `t`.
pub open spec fn asks(q: QueryView, t: Seq<char>) -> bool
    decreases q,
{
    match q {
        QueryView::Not(n) => asks(*n, t),
        QueryView::Boost(n, w) => asks(*n, t),
        QueryView::And(cs) => exists|i: int| 0 <= i < cs.len() && asks(#[trigger] cs[i], t),
        QueryView::Or(cs) => exists|i: int| 0 <= i < cs.len() && asks(#[trigger] cs[i], t),
        QueryView::AtLeast { min, of } => exists|i: int| 0 <= i < of.len() && asks(#[trigger] of[i], t),
        QueryView::Phrase { slots, slop } => exists|i: int, j: int|
            0 <= i < slots.len() && 0 <= j < slots[i].alts.len() && asks(#[trigger] slots[i].alts[j], t),
        QueryView::Near { left, right, gap, ordered } => asks(*left, t) || asks(*right, t),
        _ => accepts(q, t),
    }
}

/// Whether the query looks at `t`: it has the term `t`, or a pattern.
pub open spec fn uses(q: QueryView, t: Seq<char>) -> bool
    decreases q,
{
    match q {
        QueryView::Term(x) => x == t,
        QueryView::Not(n) => uses(*n, t),
        QueryView::Boost(n, w) => uses(*n, t),
        QueryView::And(cs) => exists|i: int| 0 <= i < cs.len() && uses(#[trigger] cs[i], t),
        QueryView::Or(cs) => exists|i: int| 0 <= i < cs.len() && uses(#[trigger] cs[i], t),
        QueryView::AtLeast { min, of } => exists|i: int| 0 <= i < of.len() && uses(#[trigger] of[i], t),
        QueryView::Phrase { slots, slop } => exists|i: int, j: int|
            0 <= i < slots.len() && 0 <= j < slots[i].alts.len() && uses(#[trigger] slots[i].alts[j], t),
        QueryView::Near { left, right, gap, ordered } => uses(*left, t) || uses(*right, t),
        _ => true,
    }
}

/// A query looks at every term that some part of it accepts.
proof fn lemma_asks_used(q: QueryView, t: Seq<char>)
    requires
        asks(q, t),
    ensures
        uses(q, t),
    decreases q,
{
    match q {
        QueryView::Not(n) => lemma_asks_used(*n, t),
        QueryView::Boost(n, w) => lemma_asks_used(*n, t),
        QueryView::And(cs) => {
            let i = choose|i: int| 0 <= i < cs.len() && asks(#[trigger] cs[i], t);
            lemma_asks_used(cs[i], t);
        },
        QueryView::Or(cs) => {
            let i = choose|i: int| 0 <= i < cs.len() && asks(#[trigger] cs[i], t);
            lemma_asks_used(cs[i], t);
        },
        QueryView::AtLeast { min, of } => {
            let i = choose|i: int| 0 <= i < of.len() && asks(#[trigger] of[i], t);
            lemma_asks_used(of[i], t);
        },
        QueryView::Phrase { slots, slop } => {
            let (i, j) = choose|i: int, j: int| 0 <= i < slots.len() && 0 <= j < slots[i].alts.len() && asks(#[trigger] slots[i].alts[j], t);
            lemma_asks_used(slots[i].alts[j], t);
        },
        QueryView::Near { left, right, gap, ordered } => {
            if asks(*left, t) {
                lemma_asks_used(*left, t);
            } else {
                lemma_asks_used(*right, t);
            }
        },
        _ => {},
    }
}

/// Which document terms a query looks at: its terms, or every term if it
/// has patterns. Build once per query; it makes rechecks skip (and never
/// allocate for) the other words of a row.
pub struct Wanted {
    terms: TermTable,
    all: bool,
    /// Also count the document's distinct terms (for scoring).
    count: bool,
    /// Per length (up to `MAX_TERM_BYTES`), the first bytes of the wanted
    /// ASCII terms: an ASCII word matching neither is skipped unfolded.
    first_bytes: Vec<u64>,
}

/// An ASCII term of length `n`, which is not 0, with the first byte `b`.
spec fn is_start(t: Seq<char>, n: int, b: int) -> bool {
    all_low(t) && t.len() == n && n >= 1 && t[0] as u8 == b
}

impl Wanted {
    /// Whether a term is looked at.
    pub closed spec fn wants(&self, t: Seq<char>) -> bool {
        self.all || self.terms.names().contains(t)
    }

    /// Whether distinct terms are counted.
    pub closed spec fn counts(&self) -> bool {
        self.count
    }

    pub closed spec fn wf(&self) -> bool {
        &&& self.terms.wf()
        &&& self.first_bytes@.len() == 260
        &&& forall|i: int| 0 <= i < self.terms.names().len() ==> self.noted(#[trigger] self.terms.names()[i])
        &&& forall|x: int| 0 <= x && #[trigger] bit(self.first_bytes@, x) ==> self.starts_so(x / 256, x % 256)
    }

    /// Some wanted ASCII term of length `n` has the first byte `b`.
    spec fn starts_so(&self, n: int, b: int) -> bool {
        exists|i: int| 0 <= i < self.terms.names().len() && is_start(#[trigger] self.terms.names()[i], n, b)
    }

    /// Whether raw word `w` has to be folded and looked up.
    spec fn may(&self, w: Seq<char>) -> bool {
        ||| self.all
        ||| self.count
        ||| !all_plain(w)
        ||| w.len() == 0
        ||| w.len() <= MAX_TERM_BYTES && self.starts_so(w.len() as int, ascii_lower(w[0]) as u8 as int)
    }

    /// The length and first byte of a wanted ASCII term are known.
    spec fn noted(&self, t: Seq<char>) -> bool {
        all_low(t) && 1 <= t.len() <= 64 ==> bit(self.first_bytes@, t.len() * 256 + (t[0] as u8))
    }

    /// The terms that `q` can use.
    pub fn new(q: &Query) -> (r: Wanted)
        ensures
            r.wf(),
            !r.counts(),
            forall|t: Seq<char>| #[trigger] r.wants(t) <==> uses(q.view(), t),
            forall|t: Seq<char>| asks(q.view(), t) ==> #[trigger] r.wants(t),
    {
        let mut w: Wanted = Wanted { terms: TermTable::new(), all: false, count: false, first_bytes: Vec::new() };
        let mut i: usize = 0;
        while i < 260
            invariant
                i <= 260,
                w.first_bytes@.len() == i,
                w.terms.wf(),
                w.terms.names().len() == 0,
                !w.all,
                !w.count,
                forall|x: int| 0 <= x ==> !#[trigger] bit(w.first_bytes@, x),
            decreases 260 - i,
        {
            let ghost was = w.first_bytes@;
            w.first_bytes.push(0);
            proof {
                words::lemma_word_ops(0, 0);
                assert forall|x: int| 0 <= x implies !#[trigger] bit(w.first_bytes@, x) by {
                    assert(!bit(was, x));
                }
            }
            i = i + 1;
        }
        let ghost none = w;
        w.add(q);
        proof {
            assert forall|t: Seq<char>| #[trigger] w.wants(t) <==> uses(q.view(), t) by {
                assert(!none.wants(t));
            }
            assert forall|t: Seq<char>| asks(q.view(), t) implies #[trigger] w.wants(t) by {
                lemma_asks_used(q.view(), t);
            }
        }
        w
    }

    /// Like [`new`](Self::new), and [`DocWords::distinct_terms`] counts every
    /// term of the document.
    pub fn counting(q: &Query) -> (r: Wanted)
        ensures
            r.wf(),
            r.counts(),
            forall|t: Seq<char>| #[trigger] r.wants(t) <==> uses(q.view(), t),
            forall|t: Seq<char>| asks(q.view(), t) ==> #[trigger] r.wants(t),
    {
        let w: Wanted = Wanted::new(q);
        let r: Wanted = Wanted { terms: w.terms, all: w.all, count: true, first_bytes: w.first_bytes };
        proof {
            assert forall|t: Seq<char>| #[trigger] r.wants(t) == w.wants(t) by {}
            lemma_wf_flags(w, r);
        }
        r
    }

    /// Note one wanted term.
    fn note(&mut self, t: &String)
        requires
            old(self).wf(),
        ensures
            final(self).wf(),
            final(self).count == old(self).count,
            forall|x: Seq<char>| #[trigger] final(self).wants(x) <==> old(self).wants(x) || x == t@,
    {
        let ghost before = *self;
        let id: usize = self.terms.intern(t.as_str());
        let cs: Vec<char> = chars_of(t.as_str());
        let n: usize = cs.len();
        let mut i: usize = 0;
        while i < n && (cs[i] as u32) < 128
            invariant
                n == cs@.len(),
                i <= n,
                forall|k: int| 0 <= k < i ==> is_low(#[trigger] cs@[k]),
            decreases n - i,
        {
            i = i + 1;
        }
        if i == n && 1 <= n && n <= MAX_TERM_BYTES {
            let b: usize = cs[0] as u8 as usize;
            words::set_bit(&mut self.first_bytes, n * 256 + b);
        }
        proof {
            assert(self.terms.names().contains(t@)) by {
                assert(self.terms.names()[id as int] == t@);
            }
            assert forall|x: Seq<char>| #[trigger] self.wants(x) <==> before.wants(x) || x == t@ by {
                crate::space::lemma_push_contains(before.terms.names(), t@, x);
            }
            assert forall|k: int| 0 <= k < before.terms.names().len() implies #[trigger] self.terms.names()[k] == before.terms.names()[k] by {}
            assert forall|x: int| 0 <= x && #[trigger] bit(self.first_bytes@, x) implies self.starts_so(x / 256, x % 256) by {
                if bit(before.first_bytes@, x) {
                    assert(before.starts_so(x / 256, x % 256));
                    let k = choose|k: int| 0 <= k < before.terms.names().len() && is_start(#[trigger] before.terms.names()[k], x / 256, x % 256);
                    assert(is_start(self.terms.names()[k], x / 256, x % 256));
                } else {
                    assert(x == n * 256 + (cs@[0] as u8));
                    assert(x / 256 == n && x % 256 == cs@[0] as u8);
                    assert(is_low(cs@[0]));
                    assert(all_low(t@));
                    assert(is_start(self.terms.names()[id as int], x / 256, x % 256));
                }
            }
            assert forall|k: int| 0 <= k < self.terms.names().len() implies self.noted(#[trigger] self.terms.names()[k]) by {
                if k < before.terms.names().len() {
                    assert(before.noted(before.terms.names()[k]));
                    assert(self.terms.names()[k] == before.terms.names()[k]);
                } else {
                    assert(self.terms.names()[k] == t@);
                    if all_low(t@) && i < n {
                        assert(is_low(cs@[i as int]));
                    }
                }
            }
        }
    }

    fn add(&mut self, q: &Query)
        requires
            old(self).wf(),
        ensures
            final(self).wf(),
            final(self).count == old(self).count,
            forall|t: Seq<char>| #[trigger] final(self).wants(t) <==> old(self).wants(t) || uses(q.view(), t),
        decreases q,
    {
        proof {
            lemma_query_view(*q);
        }
        match q {
            Query::Term(t) => {
                self.note(t);
            },
            Query::Prefix(_) | Query::Fragment(_) | Query::Fuzzy(_, _) => {
                let ghost before = *self;
                self.all = true;
                proof {
                    lemma_wf_flags(before, *self);
                }
            },
            Query::Not(n) => {
                self.add(n);
            },
            Query::Boost(n, _) => {
                self.add(n);
            },
            Query::And(cs) => {
                self.add_all(cs);
                proof {
                    lemma_parts_use(q.view(), query_views(cs@));
                }
            },
            Query::Or(cs) => {
                self.add_all(cs);
                proof {
                    lemma_parts_use(q.view(), query_views(cs@));
                }
            },
            Query::AtLeast { min: _, of } => {
                self.add_all(of);
                proof {
                    lemma_parts_use(q.view(), query_views(of@));
                }
            },
            Query::Phrase { slots, slop: _ } => {
                let mut i: usize = 0;
                let ghost before = *self;
                while i < slots.len()
                    invariant
                        i <= slots@.len(),
                        self.wf(),
                        self.count == before.count,
                        *q is Phrase,
                        q->slots == *slots,
                        forall|t: Seq<char>| #[trigger] self.wants(t) <==> before.wants(t) || slots_use(slot_views(slots@), i as int, t),
                    decreases slots@.len() - i,
                {
                    let ghost mid = *self;
                    let s: &Slot = &slots[i];
                    proof {
                        assert(decreases_to!(*q => q->slots));
                        assert(decreases_to!(*slots => slots[i as int]));
                        assert(decreases_to!(slots[i as int] => s.alts));
                    }
                    self.add_all(&s.alts);
                    proof {
                        let sv = slot_views(slots@);
                        lemma_slot_view(slots@[i as int]);
                        assert(sv[i as int].alts == query_views(s.alts@));
                        assert forall|t: Seq<char>| #[trigger] self.wants(t) <==> before.wants(t) || slots_use(sv, i + 1, t) by {
                            assert(mid.wants(t) <==> before.wants(t) || slots_use(sv, i as int, t));
                            lemma_slots_use(sv, i as int, t);
                        }
                    }
                    i = i + 1;
                }
                proof {
                    assert forall|t: Seq<char>| #[trigger] self.wants(t) <==> before.wants(t) || uses(q.view(), t) by {
                        lemma_phrase_uses(q.view(), t);
                    }
                }
            },
            Query::Near { left, right, gap: _, ordered: _ } => {
                let ghost before = *self;
                self.add(left);
                let ghost mid = *self;
                self.add(right);
                proof {
                    assert forall|t: Seq<char>| #[trigger] self.wants(t) <==> before.wants(t) || uses(q.view(), t) by {
                        assert(mid.wants(t) <==> before.wants(t) || uses(left.view(), t));
                    }
                }
            },
        }
    }

    fn add_all(&mut self, cs: &Vec<Query>)
        requires
            old(self).wf(),
        ensures
            final(self).wf(),
            final(self).count == old(self).count,
            forall|t: Seq<char>| #[trigger] final(self).wants(t) <==> old(self).wants(t) || some_use(query_views(cs@), cs@.len() as int, t),
        decreases cs,
    {
        let mut i: usize = 0;
        while i < cs.len()
            invariant
                i <= cs@.len(),
                self.wf(),
                self.count == old(self).count,
                forall|t: Seq<char>| #[trigger] self.wants(t) <==> old(self).wants(t) || some_use(query_views(cs@), i as int, t),
            decreases cs@.len() - i,
        {
            let ghost mid = *self;
            self.add(&cs[i]);
            proof {
                let qs = query_views(cs@);
                assert(qs[i as int] == cs@[i as int].view());
                assert forall|t: Seq<char>| #[trigger] self.wants(t) <==> old(self).wants(t) || some_use(qs, i + 1, t) by {
                    assert(mid.wants(t) <==> old(self).wants(t) || some_use(qs, i as int, t));
                    lemma_some_use(qs, i as int, t);
                }
            }
            i = i + 1;
        }
    }

    /// Whether raw word `w` may fold to a wanted term. Folding an ASCII word
    /// (without control characters) only lower-cases it, so its length and lower-cased first byte decide;
    /// other words are always folded and looked up.
    fn may_want(&self, w: &str) -> (r: bool)
        requires
            self.wf(),
        ensures
            r == self.may(w@),
            !r ==> !(self.wants(fold(w@)) && is_kept(fold(w@))),
    {
        if self.all || self.count {
            return true;
        }
        let cs: Vec<char> = chars_of(w);
        let n: usize = cs.len();
        let mut i: usize = 0;
        while i < n
            invariant
                cs@ == w@,
                n == cs@.len(),
                i <= n,
                forall|k: int| 0 <= k < i ==> is_low(#[trigger] cs@[k]) && !is_control(cs@[k]),
            decreases n - i,
        {
            if (cs[i] as u32) >= 0x7F || (cs[i] as u32) < 0x20 {
                assert(!is_low(w@[i as int]) || is_control(w@[i as int]));
                return true;
            }
            i = i + 1;
        }
        if n == 0 || n > MAX_TERM_BYTES {
            proof {
                let f = fold(w@);
                assert(f.len() == n);
                crate::text::lemma_bytes_mono(f, 0, n as int);
            }
            return n == 0;
        }
        let c: char = cs[0];
        let b: u8 = if 'A' <= c && c <= 'Z' {
            c as u8 + 32
        } else {
            c as u8
        };
        let r: bool = words::get_bit(self.first_bytes.as_slice(), n * 256 + b as usize);
        proof {
            let x = n * 256 + b;
            assert(is_low(w@[0]));
            assert(x / 256 == n && x % 256 == b);
            assert(b == ascii_lower(w@[0]) as u8);
            if self.starts_so(n as int, b as int) {
                let k = choose|k: int| 0 <= k < self.terms.names().len() && is_start(#[trigger] self.terms.names()[k], n as int, b as int);
                assert(self.noted(self.terms.names()[k]));
            }
            if !r && self.wants(fold(w@)) {
                let f = fold(w@);
                lemma_fold_low(w@);
                let k = self.terms.names().index_of(f);
                assert(self.noted(self.terms.names()[k]));
                assert(f[0] as u8 == b);
            }
        }
        r
    }

    /// Whether a term is looked at.
    fn is_wanted(&self, t: &str) -> (r: bool)
        requires
            self.wf(),
        ensures
            r == self.wants(t@),
    {
        if self.all {
            return true;
        }
        match self.terms.find(t) {
            Some(i) => {
                proof {
                    assert(self.terms.names()[i as int] == t@);
                }
                true
            },
            None => false,
        }
    }
}

/// Whether one of the first `n` queries looks at `t`.
spec fn some_use(qs: Seq<QueryView>, n: int, t: Seq<char>) -> bool {
    exists|i: int| 0 <= i < n && uses(#[trigger] qs[i], t)
}

proof fn lemma_some_use(qs: Seq<QueryView>, n: int, t: Seq<char>)
    requires
        0 <= n < qs.len(),
    ensures
        some_use(qs, n + 1, t) <==> some_use(qs, n, t) || uses(qs[n], t),
{
    if some_use(qs, n, t) {
        let i = choose|i: int| 0 <= i < n && uses(#[trigger] qs[i], t);
        assert(0 <= i < n + 1 && uses(qs[i], t));
    }
}

/// A query of parts looks at what one of them looks at.
proof fn lemma_parts_use(q: QueryView, parts: Seq<QueryView>)
    requires
        q == QueryView::And(parts) || q == QueryView::Or(parts) || (q is AtLeast && q->of == parts),
    ensures
        forall|t: Seq<char>| #[trigger] uses(q, t) <==> some_use(parts, parts.len() as int, t),
{
    assert forall|t: Seq<char>| #[trigger] uses(q, t) <==> some_use(parts, parts.len() as int, t) by {
        match q {
            QueryView::And(cs) => {
                assert(uses(q, t) <==> exists|i: int| 0 <= i < cs.len() && uses(#[trigger] cs[i], t));
            },
            QueryView::Or(cs) => {
                assert(uses(q, t) <==> exists|i: int| 0 <= i < cs.len() && uses(#[trigger] cs[i], t));
            },
            QueryView::AtLeast { min, of } => {
                assert(uses(q, t) <==> exists|i: int| 0 <= i < of.len() && uses(#[trigger] of[i], t));
            },
            _ => {},
        }
    }
}

/// Whether an item of the first `n` slots looks at `t`.
spec fn slots_use(slots: Seq<crate::query::SlotView>, n: int, t: Seq<char>) -> bool {
    exists|i: int, j: int| 0 <= i < n && 0 <= j < slots[i].alts.len() && uses(#[trigger] slots[i].alts[j], t)
}

/// A phrase looks at what an item of it looks at.
proof fn lemma_phrase_uses(q: QueryView, t: Seq<char>)
    requires
        q is Phrase,
    ensures
        uses(q, t) <==> slots_use(q->slots, q->slots.len() as int, t),
{
    let slots = q->slots;
    assert(uses(q, t) <==> exists|i: int, j: int| 0 <= i < slots.len() && 0 <= j < slots[i].alts.len() && uses(#[trigger] slots[i].alts[j], t));
    if slots_use(slots, slots.len() as int, t) {
        let (i, j) = choose|i: int, j: int| 0 <= i < slots.len() && 0 <= j < slots[i].alts.len() && uses(#[trigger] slots[i].alts[j], t);
        assert(uses(slots[i].alts[j], t));
    }
}

proof fn lemma_slots_use(slots: Seq<crate::query::SlotView>, n: int, t: Seq<char>)
    requires
        0 <= n < slots.len(),
    ensures
        slots_use(slots, n + 1, t) <==> slots_use(slots, n, t) || some_use(slots[n].alts, slots[n].alts.len() as int, t),
{
    if slots_use(slots, n, t) {
        let (i, j) = choose|i: int, j: int| 0 <= i < n && 0 <= j < slots[i].alts.len() && uses(#[trigger] slots[i].alts[j], t);
        assert(0 <= i < n + 1 && uses(slots[i].alts[j], t));
    }
    if some_use(slots[n].alts, slots[n].alts.len() as int, t) {
        let j = choose|j: int| 0 <= j < slots[n].alts.len() && uses(#[trigger] slots[n].alts[j], t);
        assert(0 <= n < n + 1 && uses(slots[n].alts[j], t));
    }
    if slots_use(slots, n + 1, t) {
        let (i, j) = choose|i: int, j: int| 0 <= i < n + 1 && 0 <= j < slots[i].alts.len() && uses(#[trigger] slots[i].alts[j], t);
        if i == n {
            assert(uses(slots[n].alts[j], t));
        }
    }
}

/// What is known of the terms does not depend on the flags.
proof fn lemma_wf_flags(a: Wanted, b: Wanted)
    requires
        a.wf(),
        b.terms == a.terms,
        b.first_bytes == a.first_bytes,
    ensures
        b.wf(),
{
    assert forall|i: int| 0 <= i < b.terms.names().len() implies b.noted(#[trigger] b.terms.names()[i]) by {
        assert(a.noted(a.terms.names()[i]));
    }
    assert forall|x: int| 0 <= x && #[trigger] bit(b.first_bytes@, x) implies b.starts_so(x / 256, x % 256) by {
        assert(a.starts_so(x / 256, x % 256));
        let k = choose|k: int| 0 <= k < a.terms.names().len() && is_start(#[trigger] a.terms.names()[k], x / 256, x % 256);
        assert(is_start(b.terms.names()[k], x / 256, x % 256));
    }
}

/// Folding an ASCII word keeps it ASCII.
proof fn lemma_fold_low(w: Seq<char>)
    requires
        all_plain(w),
    ensures
        all_low(fold(w)),
        fold(w).len() == w.len(),
{
    let f = fold(w);
    assert forall|i: int| 0 <= i < f.len() implies is_low(#[trigger] f[i]) by {
        assert(is_low(w[i]));
    }
}

// ---------------------------------------------------------------------------
// One document
// ---------------------------------------------------------------------------

/// The part of a document that is looked at.
pub open spec fn wanted_part(doc: Doc, w: Wanted) -> Doc {
    doc.filter(|e: (Seq<char>, int)| w.wants(e.0))
}

/// The distinct terms of a document.
pub open spec fn doc_terms(doc: Doc) -> Set<Seq<char>> {
    Set::new(|t: Seq<char>| exists|i: int| 0 <= i < doc.len() && (#[trigger] doc[i]).0 == t)
}

/// The positions of the term `t`.
spec fn list_ok(list: Seq<u32>, t: Seq<char>, doc: Doc) -> bool {
    &&& ascends(list)
    &&& list.len() >= 1
    &&& forall|p: int| #[trigger] positions_of(list).contains(p) <==> stands(QueryView::Term(t), doc, p)
}

/// One document's words: each distinct term with its positions (only the
/// terms a query can use, when built [`for`](DocWords::with) one).
pub struct DocWords {
    terms: TermTable,
    positions: Vec<Vec<u32>>,
    words: u32,
    distinct: usize,
    doc: Ghost<Doc>,
}

impl DocWords {
    /// The words that were kept.
    pub closed spec fn doc(&self) -> Doc {
        self.doc@
    }

    /// The table lists the document's terms, each with its positions.
    pub closed spec fn wf(&self) -> bool {
        &&& self.terms.wf()
        &&& self.positions@.len() == self.terms.names().len()
        &&& forall|i: int| 0 <= i < self.positions@.len() ==> list_ok((#[trigger] self.positions@[i])@, self.terms.names()[i], self.doc@)
        &&& forall|k: int| 0 <= k < self.doc@.len() ==> self.terms.names().contains((#[trigger] self.doc@[k]).0)
        &&& forall|k: int| 0 <= k < self.doc@.len() ==> 0 <= (#[trigger] self.doc@[k]).1 < self.words
    }

    /// The table names the document's terms.
    proof fn lemma_names(&self)
        requires
            self.wf(),
        ensures
            forall|t: Seq<char>| self.terms.names().contains(t) <==> doc_terms(self.doc@).contains(t),
    {
        let names = self.terms.names();
        assert forall|t: Seq<char>| names.contains(t) <==> doc_terms(self.doc@).contains(t) by {
            if names.contains(t) {
                let i = names.index_of(t);
                let l = self.positions@[i]@;
                assert(list_ok(l, names[i], self.doc@));
                assert(positions_of(l).contains(l[0] as int));
                let k = choose|k: int| 0 <= k < self.doc@.len() && (#[trigger] self.doc@[k]).1 == l[0] && accepts(QueryView::Term(t), self.doc@[k].0);
                assert(self.doc@[k].0 == t);
            }
        }
    }

    /// How many words the document has.
    pub closed spec fn spec_words(&self) -> int {
        self.words as int
    }

    /// How many distinct terms were counted.
    pub closed spec fn spec_distinct(&self) -> int {
        self.distinct as int
    }

    /// Every term of `text`.
    pub fn new(text: &str, analyzer: &mut Analyzer) -> (r: DocWords)
        requires
            fits(text@),
        ensures
            r.wf(),
            r.doc() == doc_of(text@),
            r.spec_words() == words_from(text@, 0).len(),
            doc_terms(doc_of(text@)).finite(),
            r.spec_distinct() == doc_terms(doc_of(text@)).len(),
    {
        let ws: Vec<(usize, String)> = for_each_word(text);
        let mut keep: Vec<bool> = Vec::new();
        while keep.len() < ws.len()
            invariant
                keep@.len() <= ws@.len(),
                forall|i: int| 0 <= i < keep@.len() ==> #[trigger] keep@[i],
            decreases ws@.len() - keep@.len(),
        {
            keep.push(true);
        }
        let (terms, words): (Vec<(String, u32)>, u32) = analyzer.for_each_term_if(&ws, &keep);
        let mut d: DocWords = DocWords::empty(words);
        let ghost kept = kept_terms(words_view(ws@), keep@, ws@.len() as int);
        proof {
            assert(words_view(ws@).len() == ws@.len());
            lemma_all_kept(words_view(ws@), keep@, ws@.len() as int);
            lemma_kept_ascend(words_view(ws@), keep@, ws@.len() as int);
            assert(d.doc@ =~= kept.take(0));
        }
        let mut i: usize = 0;
        while i < terms.len()
            invariant
                i <= terms@.len(),
                d.wf(),
                d.words == words,
                kept == terms@.map_values(|e: (String, u32)| (e.0@, e.1 as int)),
                positions_ascend(kept),
                forall|k: int| 0 <= k < kept.len() ==> (#[trigger] kept[k]).1 < words,
                d.doc@ == kept.take(i as int),
            decreases terms@.len() - i,
        {
            proof {
                assert(kept[i as int] == (terms@[i as int].0@, terms@[i as int].1 as int));
                assert(kept.take(i + 1) =~= kept.take(i as int).push(kept[i as int]));
            }
            d.add(terms[i].0.as_str(), terms[i].1);
            i = i + 1;
        }
        d.distinct = d.terms.len();
        proof {
            assert(kept.take(i as int) =~= kept);
            assert(kept =~= doc_of(text@));
            d.lemma_names();
            lemma_distinct(d.terms, doc_of(text@));
        }
        d
    }

    /// The terms of `text` that `wanted` names. [`distinct_terms`](Self::distinct_terms)
    /// counts all of the document's terms only if `wanted` is
    /// [`counting`](Wanted::counting).
    pub fn with(text: &str, analyzer: &mut Analyzer, wanted: &Wanted) -> (r: DocWords)
        requires
            fits(text@),
            wanted.wf(),
        ensures
            r.wf(),
            r.doc() == wanted_part(doc_of(text@), *wanted),
            r.spec_words() == words_from(text@, 0).len(),
            doc_terms(doc_of(text@)).finite(),
            doc_terms(r.doc()).finite(),
            r.spec_distinct() == if wanted.counts() { doc_terms(doc_of(text@)).len() } else { doc_terms(r.doc()).len() },
    {
        let ws: Vec<(usize, String)> = for_each_word(text);
        let ghost wv = words_view(ws@);
        let mut keep: Vec<bool> = Vec::new();
        while keep.len() < ws.len()
            invariant
                wanted.wf(),
                wv == words_view(ws@),
                keep@.len() <= ws@.len(),
                wanted.count ==> forall|i: int| 0 <= i < keep@.len() ==> #[trigger] keep@[i],
                forall|i: int| 0 <= i < keep@.len() && !(#[trigger] keep@[i]) ==> !(wanted.wants(fold(wv[i].1)) && is_kept(fold(wv[i].1))),
            decreases ws@.len() - keep@.len(),
        {
            let i: usize = keep.len();
            let k: bool = wanted.may_want(ws[i].1.as_str());
            proof {
                assert(wv[i as int].1 == ws@[i as int].1@);
            }
            keep.push(k);
        }
        let (terms, words): (Vec<(String, u32)>, u32) = analyzer.for_each_term_if(&ws, &keep);
        let ghost kept = kept_terms(wv, keep@, ws@.len() as int);
        let ghost pred = |e: (Seq<char>, int)| wanted.wants(e.0);
        let mut d: DocWords = DocWords::empty(words);
        // Every term, to count distinct ones.
        let mut seen: TermTable = TermTable::new();
        proof {
            assert(wv.len() == ws@.len());
            lemma_kept_ascend(wv, keep@, ws@.len() as int);
            assert(kept.take(0).filter(pred) =~= Seq::<(Seq<char>, int)>::empty()) by {
                reveal(Seq::filter);
            }
        }
        let mut i: usize = 0;
        while i < terms.len()
            invariant
                wanted.wf(),
                i <= terms@.len(),
                d.wf(),
                d.words == words,
                kept == terms@.map_values(|e: (String, u32)| (e.0@, e.1 as int)),
                positions_ascend(kept),
                forall|k: int| 0 <= k < kept.len() ==> (#[trigger] kept[k]).1 < words,
                pred == (|e: (Seq<char>, int)| wanted.wants(e.0)),
                d.doc@ == kept.take(i as int).filter(pred),
                forall|k: int| 0 <= k < d.doc@.len() ==> exists|m: int| 0 <= m < i && kept[m] == #[trigger] d.doc@[k],
                seen.wf(),
                wanted.count ==> forall|t: Seq<char>| #[trigger] seen.names().contains(t) <==> doc_terms(kept.take(i as int)).contains(t),
            decreases terms@.len() - i,
        {
            let ghost was = d.doc@;
            let ghost before = seen.names();
            let ghost e = kept[i as int];
            proof {
                assert(e == (terms@[i as int].0@, terms@[i as int].1 as int));
                assert(kept.take(i + 1) =~= kept.take(i as int).push(e));
                assert(kept.take(i + 1).drop_last() =~= kept.take(i as int));
                reveal(Seq::filter);
            }
            if wanted.is_wanted(terms[i].0.as_str()) {
                proof {
                    assert forall|k: int| 0 <= k < d.doc@.len() implies (#[trigger] d.doc@[k]).1 < e.1 by {
                        let m = choose|m: int| 0 <= m < i && kept[m] == d.doc@[k];
                        assert(kept[m].1 < kept[i as int].1);
                    }
                }
                d.add(terms[i].0.as_str(), terms[i].1);
                proof {
                    assert forall|k: int| 0 <= k < d.doc@.len() implies exists|m: int| 0 <= m < i + 1 && kept[m] == #[trigger] d.doc@[k] by {
                        if k < was.len() {
                            let m = choose|m: int| 0 <= m < i && kept[m] == was[k];
                            assert(kept[m] == d.doc@[k]);
                        } else {
                            assert(kept[i as int] == d.doc@[k]);
                        }
                    }
                }
            }
            if wanted.count {
                let _ = seen.intern(terms[i].0.as_str());
                proof {
                    assert forall|t: Seq<char>| #[trigger] seen.names().contains(t) <==> doc_terms(kept.take(i + 1)).contains(t) by {
                        assert(before.contains(t) <==> doc_terms(kept.take(i as int)).contains(t));
                        lemma_doc_terms_push(kept.take(i as int), e, t);
                        crate::space::lemma_push_contains(before, e.0, t);
                    }
                }
            }
            i = i + 1;
        }
        d.distinct = if wanted.count {
            seen.len()
        } else {
            d.terms.len()
        };
        proof {
            assert(kept.take(i as int) =~= kept);
            let full = doc_of(text@);
            lemma_wanted_kept(wv, keep@, ws@.len() as int, *wanted);
            assert(full =~= kept_all(wv, ws@.len() as int)) by {
                lemma_kept_all(wv, ws@.len() as int);
            }
            assert(d.doc@ == wanted_part(full, *wanted));
            d.lemma_names();
            lemma_distinct(d.terms, d.doc@);
            lemma_doc_terms_finite(full);
            if wanted.count {
                assert(forall|t: Seq<char>| seen.names().contains(t) <==> doc_terms(kept).contains(t));
                lemma_all_kept(wv, keep@, ws@.len() as int);
                assert(kept =~= full);
                lemma_distinct(seen, full);
            }
        }
        d
    }

    /// No words yet, of a document with `words` word positions.
    fn empty(words: u32) -> (r: DocWords)
        ensures
            r.wf(),
            r.doc@ == Seq::<(Seq<char>, int)>::empty(),
            r.words == words,
    {
        DocWords { terms: TermTable::new(), positions: Vec::new(), words, distinct: 0, doc: Ghost(Seq::empty()) }
    }

    /// Add the word at `pos`, which is past all others.
    fn add(&mut self, term: &str, pos: u32)
        requires
            old(self).wf(),
            pos < old(self).words,
            forall|k: int| 0 <= k < old(self).doc@.len() ==> (#[trigger] old(self).doc@[k]).1 < pos,
        ensures
            final(self).wf(),
            final(self).words == old(self).words,
            final(self).doc@ == old(self).doc@.push((term@, pos as int)),
    {
        let ghost before = *self;
        let id: usize = self.terms.intern(term);
        if id == self.positions.len() {
            self.positions.push(Vec::new());
        }
        let ghost mid = self.positions@;
        self.positions[id].push(pos);
        self.doc = Ghost(before.doc@.push((term@, pos as int)));
        proof {
            let names = self.terms.names();
            self.terms.lemma_distinct();
            before.terms.lemma_distinct();
            if before.terms.names().contains(term@) {
                assert(id < before.positions@.len());
            }
            assert forall|i: int| 0 <= i < self.positions@.len() implies list_ok((#[trigger] self.positions@[i])@, names[i], self.doc@) by {
                let l = self.positions@[i]@;
                if i != id {
                    assert(list_ok(before.positions@[i]@, before.terms.names()[i], before.doc@));
                    assert(names[i] == before.terms.names()[i]);
                    assert(names[i] != term@);
                    assert forall|p: int| #[trigger] positions_of(l).contains(p) <==> stands(QueryView::Term(names[i]), self.doc@, p) by {
                        lemma_stands_push(before.doc@, term@, pos as int, names[i], p);
                    }
                } else {
                    let o = mid[i]@;
                    assert(l == o.push(pos));
                    let known = i < before.positions@.len();
                    if known {
                        assert(list_ok(before.positions@[i]@, before.terms.names()[i], before.doc@));
                        assert(o == before.positions@[i]@);
                    } else {
                        assert(o == Seq::<u32>::empty());
                    }
                    assert forall|p: int| positions_of(o).contains(p) <==> stands(QueryView::Term(term@), before.doc@, p) by {
                        if !known && stands(QueryView::Term(term@), before.doc@, p) {
                            let k = choose|k: int| 0 <= k < before.doc@.len() && (#[trigger] before.doc@[k]).1 == p && accepts(QueryView::Term(term@), before.doc@[k].0);
                            assert(before.terms.names().contains(before.doc@[k].0));
                        }
                    }
                    assert forall|p: int| #[trigger] positions_of(l).contains(p) <==> stands(QueryView::Term(names[i]), self.doc@, p) by {
                        lemma_stands_push(before.doc@, term@, pos as int, term@, p);
                        lemma_positions_push(o, pos, p);
                    }
                    assert forall|a: int, b: int| 0 <= a < b < l.len() implies #[trigger] l[a] < #[trigger] l[b] by {
                        if b == o.len() {
                            assert(positions_of(o).contains(o[a] as int)) by {
                                assert(o[a] == o[a]);
                            }
                            let k = choose|k: int| 0 <= k < before.doc@.len() && (#[trigger] before.doc@[k]).1 == o[a] && accepts(QueryView::Term(term@), before.doc@[k].0);
                            assert(before.doc@[k].1 < pos);
                        }
                    }
                }
            }
            assert forall|k: int| 0 <= k < self.doc@.len() implies names.contains((#[trigger] self.doc@[k]).0) by {
                if k < before.doc@.len() {
                    let j = before.terms.names().index_of(before.doc@[k].0);
                    assert(names[j] == before.doc@[k].0);
                } else {
                    assert(names[id as int] == term@);
                }
            }
        }
    }

    /// Distinct terms in the document.
    pub fn distinct_terms(&self) -> (r: usize)
        ensures
            r == self.spec_distinct(),
    {
        self.distinct
    }

    /// Word positions in the document (dropped over-long words included).
    pub fn words(&self) -> (r: u32)
        ensures
            r == self.spec_words(),
    {
        self.words
    }

    /// Positions of `term`, ascending.
    pub fn positions(&self, term: &str) -> (r: Vec<u32>)
        requires
            self.wf(),
        ensures
            ascends(r@),
            forall|p: int| #[trigger] positions_of(r@).contains(p) <==> stands(QueryView::Term(term@), self.doc(), p),
    {
        match self.terms.find(term) {
            Some(i) => {
                assert(list_ok(self.positions@[i as int]@, self.terms.names()[i as int], self.doc@));
                let mut out: Vec<u32> = Vec::new();
                let list: &Vec<u32> = &self.positions[i];
                out.extend_from_slice(list.as_slice());
                assert(out@ =~= list@);
                out
            },
            None => {
                proof {
                    assert forall|p: int| !stands(QueryView::Term(term@), self.doc@, p) by {
                        if stands(QueryView::Term(term@), self.doc@, p) {
                            let k = choose|k: int| 0 <= k < self.doc@.len() && (#[trigger] self.doc@[k]).1 == p && accepts(QueryView::Term(term@), self.doc@[k].0);
                            assert(self.terms.names().contains(self.doc@[k].0));
                        }
                    }
                }
                Vec::new()
            },
        }
    }

    /// Whether a term or pattern accepts term `i`.
    fn hit(&self, leaf: &Query, i: usize) -> (r: bool)
        requires
            self.wf(),
            i < self.terms.names().len(),
        ensures
            r == accepts(leaf.view(), self.terms.names()[i as int]),
    {
        let name: &String = self.terms.name(i);
        match leaf {
            Query::Term(t) => *name == *t,
            Query::Prefix(p) => starts_with(chars_of(name.as_str()).as_slice(), chars_of(p.as_str()).as_slice()),
            Query::Fragment(f) => contains(chars_of(name.as_str()).as_slice(), chars_of(f.as_str()).as_slice()),
            Query::Fuzzy(q, k) => osa_within(name.as_str(), q.as_str(), *k),
            _ => false,
        }
    }

    /// The positions list of every term that a leaf (a term or pattern)
    /// matches.
    pub fn leaf_terms(&self, leaf: &Query) -> (r: Vec<(String, Vec<u32>)>)
        requires
            self.wf(),
        ensures
            forall|k: int| 0 <= k < r@.len() ==> {
                &&& accepts(leaf.view(), (#[trigger] r@[k]).0@)
                &&& ascends(r@[k].1@)
                &&& r@[k].1@.len() >= 1
                &&& forall|p: int| #[trigger] positions_of(r@[k].1@).contains(p) <==> stands(QueryView::Term(r@[k].0@), self.doc(), p)
            },
            forall|k: int, m: int| 0 <= k < m < r@.len() ==> (#[trigger] r@[k]).0@ != (#[trigger] r@[m]).0@,
            forall|k: int| 0 <= k < self.doc().len() && accepts(leaf.view(), (#[trigger] self.doc()[k]).0) ==> exists|m: int|
                0 <= m < r@.len() && (#[trigger] r@[m]).0@ == self.doc()[k].0,
    {
        let mut out: Vec<(String, Vec<u32>)> = Vec::new();
        let ghost names = self.terms.names();
        let mut i: usize = 0;
        let ghost mut ids: Seq<int> = Seq::empty();
        proof {
            self.terms.lemma_distinct();
        }
        while i < self.terms.len()
            invariant
                self.wf(),
                names == self.terms.names(),
                i <= names.len(),
                ids.len() == out@.len(),
                forall|k: int| 0 <= k < ids.len() ==> 0 <= #[trigger] ids[k] < i && out@[k].0@ == names[ids[k]] && out@[k].1@ == self.positions@[ids[k]]@
                    && accepts(leaf.view(), names[ids[k]]),
                forall|k: int, m: int| 0 <= k < m < ids.len() ==> #[trigger] ids[k] < #[trigger] ids[m],
                forall|j: int| 0 <= j < i && accepts(leaf.view(), #[trigger] names[j]) ==> ids.contains(j),
            decreases names.len() - i,
        {
            let ghost was = ids;
            if self.hit(leaf, i) {
                let mut ps: Vec<u32> = Vec::new();
                let list: &Vec<u32> = &self.positions[i];
                ps.extend_from_slice(list.as_slice());
                assert(ps@ =~= list@);
                let name: String = self.terms.name(i).clone();
                out.push((name, ps));
                proof {
                    ids = ids.push(i as int);
                    assert forall|j: int| 0 <= j < i + 1 && accepts(leaf.view(), #[trigger] names[j]) implies ids.contains(j) by {
                        crate::space::lemma_push_contains(was, i as int, j);
                    }
                }
            }
            i = i + 1;
        }
        proof {
            assert forall|k: int| 0 <= k < out@.len() implies {
                &&& accepts(leaf.view(), (#[trigger] out@[k]).0@)
                &&& ascends(out@[k].1@)
                &&& out@[k].1@.len() >= 1
                &&& forall|p: int| #[trigger] positions_of(out@[k].1@).contains(p) <==> stands(QueryView::Term(out@[k].0@), self.doc(), p)
            } by {
                assert(0 <= ids[k] < i);
                assert(list_ok(self.positions@[ids[k]]@, names[ids[k]], self.doc@));
            }
            assert forall|k: int, m: int| 0 <= k < m < out@.len() implies (#[trigger] out@[k]).0@ != (#[trigger] out@[m]).0@ by {
                assert(ids[k] < ids[m]);
            }
            assert forall|k: int| 0 <= k < self.doc().len() && accepts(leaf.view(), (#[trigger] self.doc()[k]).0) implies exists|m: int|
                0 <= m < out@.len() && (#[trigger] out@[m]).0@ == self.doc()[k].0 by {
                let j = names.index_of(self.doc()[k].0);
                assert(names.contains(self.doc@[k].0));
                assert(accepts(leaf.view(), names[j]));
                let m = ids.index_of(j);
                assert(out@[m].0@ == names[ids[m]]);
            }
        }
        out
    }

    /// Whether the document matches.
    pub fn matches(&self, q: &Query) -> (r: bool)
        requires
            self.wf(),
            q.view().valid(),
        ensures
            r == satisfied(q.view(), self.doc()),
        decreases q, 2nat,
    {
        let s: Vec<Span> = self.spans(q);
        let r: bool = s.len() > 0;
        proof {
            if r {
                assert(spans_of(s@).contains(span_view(s@[0])));
            }
        }
        r
    }

    /// The minimal intervals of `q`, sorted (by start and by end).
    pub fn spans(&self, q: &Query) -> (r: Vec<Span>)
        requires
            self.wf(),
            q.view().valid(),
        ensures
            in_order(r@),
            spans_of(r@) == spans(q.view(), self.doc()),
            forward(spans_of(r@)),
            forall|i: int| 0 <= i < r@.len() ==> (#[trigger] r@[i]).1 < self.spec_words(),
        decreases q, 1nat,
    {
        let r: Vec<Span> = self.minimal_spans(q);
        proof {
            spans_end_inside(q.view(), self.doc(), self.spec_words());
            assert forall|i: int| 0 <= i < r@.len() implies (#[trigger] r@[i]).1 < self.spec_words() by {
                assert(spans_of(r@).contains(span_view(r@[i])));
            }
        }
        r
    }

    fn minimal_spans(&self, q: &Query) -> (r: Vec<Span>)
        requires
            self.wf(),
            q.view().valid(),
        ensures
            in_order(r@),
            spans_of(r@) == spans(q.view(), self.doc()),
            forward(spans_of(r@)),
        decreases q, 0nat,
    {
        let ghost doc = self.doc();
        proof {
            lemma_query_view(*q);
            lemma_forward(q.view(), doc);
        }
        match q {
            Query::Term(_) | Query::Prefix(_) | Query::Fragment(_) | Query::Fuzzy(_, _) => self.leaf_spans(q),
            Query::Boost(inner, _) => self.spans(inner),
            // Only reachable as the root of a pure negation, which the parser
            // rejects; as a document-level test it has no intervals.
            Query::Not(_) => {
                let v: Vec<Span> = Vec::new();
                proof {
                    assert(spans_of(v@) =~= Set::empty());
                }
                v
            },
            Query::Or(cs) => {
                let lists: Vec<Vec<Span>> = self.all_spans(cs);
                let mut all: Vec<Span> = Vec::new();
                let mut i: usize = 0;
                let ghost ls = list_sets(lists@);
                proof {
                    assert(spans_of(all@) =~= union_all(ls.take(0)));
                }
                while i < lists.len()
                    invariant
                        i <= lists@.len(),
                        ls == list_sets(lists@),
                        spans_of(all@) == union_all(ls.take(i as int)),
                    decreases lists@.len() - i,
                {
                    let ghost was = all@;
                    let list: &Vec<Span> = &lists[i];
                    push_all(&mut all, list);
                    proof {
                        lemma_spans_concat(was, list@);
                        assert(ls[i as int] == spans_of(list@));
                        lemma_union_step(ls, i as int);
                    }
                    i = i + 1;
                }
                proof {
                    assert(ls.take(i as int) =~= ls);
                    assert(ls =~= spans_each(query_views(cs@), doc));
                }
                minimize(&mut all);
                all
            },
            Query::And(cs) => {
                let mut lists: Vec<Vec<Span>> = Vec::new();
                let ghost qv = query_views(cs@);
                let ghost mut ids: Seq<int> = Seq::empty();
                proof {
                    assert(QueryView::And(qv).valid());
                }
                let mut i: usize = 0;
                while i < cs.len()
                    invariant
                        self.wf(),
                        doc == self.doc(),
                        *q is And,
                        q->And_0 == *cs,
                        q.view() == QueryView::And(qv),
                        forall|k: int| 0 <= k < qv.len() ==> (#[trigger] qv[k]).valid(),
                        qv == query_views(cs@),
                        i <= cs@.len(),
                        ids.len() == lists@.len(),
                        forall|k: int| 0 <= k < ids.len() ==> 0 <= #[trigger] ids[k] < i && !(qv[ids[k]] is Not) && spans_of(lists@[k]@) == spans(qv[ids[k]], doc),
                        forall|k: int| 0 <= k < lists@.len() ==> in_order((#[trigger] lists@[k])@) && forward(spans_of(lists@[k]@)),
                        forall|j: int| 0 <= j < i && !((#[trigger] qv[j]) is Not) ==> ids.contains(j),
                        forall|j: int| 0 <= j < i && ((#[trigger] qv[j]) is Not) ==> !satisfied(*qv[j]->Not_0, doc),
                    decreases cs@.len() - i,
                {
                    let ghost was = ids;
                    let c: &Query = &cs[i];
                    proof {
                        assert(qv[i as int] == c.view());
                        assert(qv[i as int].valid());
                        assert(decreases_to!(*q => q->And_0));
                        assert(decreases_to!(*cs => cs[i as int]));
                    }
                    match c {
                        Query::Not(n) => {
                            proof {
                                assert(decreases_to!(*c => *n));
                                assert(c.view() == QueryView::Not(Box::new(n.view())));
                            }
                            if self.matches(n) {
                                proof {
                                    let x = choose|x: (int, int)| spans(n.view(), doc).contains(x);
                                    assert(qv[i as int] is Not && operands_each(qv, doc)[i as int].contains(x));
                                    assert(denied(qv, operands_each(qv, doc)));
                                }
                                let none: Vec<Span> = Vec::new();
                                proof {
                                    assert(spans_of(none@) =~= Set::empty());
                                }
                                return none;
                            }
                        },
                        _ => {
                            lists.push(self.spans(c));
                            proof {
                                ids = ids.push(i as int);
                                assert forall|j: int| 0 <= j < i + 1 && !((#[trigger] qv[j]) is Not) implies ids.contains(j) by {
                                    crate::space::lemma_push_contains(was, i as int, j);
                                }
                            }
                        },
                    }
                    i = i + 1;
                }
                let n: usize = lists.len();
                proof {
                    lemma_and(qv, doc, list_sets(lists@), ids);
                }
                cover(&lists, n)
            },
            Query::AtLeast { min, of } => {
                let lists: Vec<Vec<Span>> = self.all_spans(of);
                proof {
                    let qv = query_views(of@);
                    assert(list_sets(lists@) =~= spans_each(qv, doc));
                }
                cover(&lists, *min)
            },
            Query::Phrase { slots, slop } => {
                let mut pos: Vec<Vec<u32>> = Vec::new();
                let mut offs: Vec<u32> = Vec::new();
                let mut i: usize = 0;
                let ghost sv = slot_views(slots@);
                while i < slots.len()
                    invariant
                        self.wf(),
                        doc == self.doc(),
                        sv == slot_views(slots@),
                        i <= slots@.len(),
                        pos@.len() == i,
                        offs@.len() == i,
                        forall|j: int| 0 <= j < i ==> #[trigger] offs@[j] == sv[j].offset,
                        forall|j: int| 0 <= j < i ==> ascends((#[trigger] pos@[j])@) && positions_of(pos@[j]@) == slot_set(sv[j], doc),
                    decreases slots@.len() - i,
                {
                    proof {
                        assert(sv[i as int] == slots@[i as int].view());
                    }
                    pos.push(self.slot_positions(&slots[i]));
                    offs.push(slots[i].offset);
                    i = i + 1;
                }
                proof {
                    assert(position_sets(pos@) =~= slot_sets(sv, doc));
                    assert(ints(offs@) =~= slot_offsets(sv));
                }
                phrase(&pos, &offs, *slop)
            },
            Query::Near { left, right, gap, ordered } => {
                let l: Vec<Span> = self.spans(left);
                let r: Vec<Span> = self.spans(right);
                near(&l, &r, *gap, *ordered)
            },
        }
    }

    /// The intervals of each of `cs`.
    fn all_spans(&self, cs: &Vec<Query>) -> (r: Vec<Vec<Span>>)
        requires
            self.wf(),
            forall|i: int| 0 <= i < cs@.len() ==> (#[trigger] query_views(cs@)[i]).valid(),
        ensures
            r@.len() == cs@.len(),
            forall|i: int| 0 <= i < r@.len() ==> {
                &&& in_order((#[trigger] r@[i])@)
                &&& spans_of(r@[i]@) == spans(query_views(cs@)[i], self.doc())
                &&& forward(spans_of(r@[i]@))
            },
        decreases cs,
    {
        let mut lists: Vec<Vec<Span>> = Vec::new();
        let mut i: usize = 0;
        while i < cs.len()
            invariant
                self.wf(),
                i <= cs@.len(),
                lists@.len() == i,
                forall|i: int| 0 <= i < cs@.len() ==> (#[trigger] query_views(cs@)[i]).valid(),
                forall|k: int| 0 <= k < i ==> {
                    &&& in_order((#[trigger] lists@[k])@)
                    &&& spans_of(lists@[k]@) == spans(query_views(cs@)[k], self.doc())
                    &&& forward(spans_of(lists@[k]@))
                },
            decreases cs@.len() - i,
        {
            proof {
                assert(query_views(cs@)[i as int] == cs@[i as int].view());
            }
            lists.push(self.spans(&cs[i]));
            i = i + 1;
        }
        lists
    }

    /// Positions to highlight for `q`, sorted: every occurrence of a
    /// positive term, except that terms of a phrase or proximity item count
    /// only inside its matches.
    pub fn marks(&self, q: &Query) -> (r: Vec<u32>)
        requires
            self.wf(),
            q.view().valid(),
        ensures
            ascends(r@),
            positions_of(r@) == marks(q.view(), self.doc()),
    {
        let mut all: Vec<Span> = self.mark(q);
        let ghost before = spans_of(all@);
        minimize(&mut all);
        proof {
            reveal(is_points);
            assert(crate::interval::antichain(before));
            lemma_antichain_minimal(before);
        }
        let mut out: Vec<u32> = Vec::new();
        let mut k: usize = 0;
        while k < all.len()
            invariant
                k <= all@.len(),
                out@.len() == k,
                forall|j: int| 0 <= j < k ==> #[trigger] out@[j] == all@[j].0,
            decreases all@.len() - k,
        {
            out.push(all[k].0);
            k = k + 1;
        }
        proof {
            let m = marks(q.view(), self.doc());
            assert forall|p: int| positions_of(out@).contains(p) <==> m.contains(p) by {
                assert(before.contains((p, p)) <==> m.contains(p));
                if positions_of(out@).contains(p) {
                    let j = choose|j: int| 0 <= j < out@.len() && #[trigger] out@[j] == p;
                    assert(spans_of(all@).contains(span_view(all@[j])));
                    assert(before.contains(span_view(all@[j])));
                }
                if before.contains((p, p)) {
                    let j = choose|j: int| 0 <= j < all@.len() && span_view(#[trigger] all@[j]) == (p, p);
                    assert(out@[j] == p);
                }
            }
            assert(positions_of(out@) =~= m);
        }
        out
    }

    /// The positions to highlight, one interval each.
    fn mark(&self, q: &Query) -> (r: Vec<Span>)
        requires
            self.wf(),
            q.view().valid(),
        ensures
            is_points(r@, marks(q.view(), self.doc())),
        decreases q, 1nat,
    {
        proof {
            lemma_query_view(*q);
        }
        match q {
            Query::Term(_) | Query::Prefix(_) | Query::Fragment(_) | Query::Fuzzy(_, _) => {
                let v: Vec<Span> = self.leaf_spans(q);
                proof {
                    reveal(is_points);
                }
                v
            },
            Query::Not(_) => {
                let v: Vec<Span> = Vec::new();
                proof {
                    reveal(is_points);
                }
                v
            },
            Query::Boost(inner, _) => self.mark(inner),
            Query::And(cs) => {
                proof {
                    crate::query::lemma_parts(query_views(cs@));
                }
                self.mark_all(cs)
            },
            Query::Or(cs) => {
                proof {
                    crate::query::lemma_parts(query_views(cs@));
                }
                self.mark_all(cs)
            },
            Query::AtLeast { min: _, of } => self.mark_all(of),
            Query::Phrase { slots, slop: _ } => {
                let spans: Vec<Span> = self.spans(q);
                let inner: Vec<Span> = self.mark_slots(slots);
                keep_inside(&inner, &spans, Ghost(any_mark(slot_marks(slot_views(slots@), self.doc()))))
            },
            Query::Near { left, right, gap: _, ordered: _ } => {
                let spans: Vec<Span> = self.spans(q);
                let mut inner: Vec<Span> = self.mark(left);
                let mut more: Vec<Span> = self.mark(right);
                let ghost (a, b) = (inner@, more@);
                let ghost (ma, mb) = (marks(left.view(), self.doc()), marks(right.view(), self.doc()));
                inner.append(&mut more);
                proof {
                    assert(inner@ =~= a + b);
                    lemma_points_concat(a, b, ma, mb);
                }
                keep_inside(&inner, &spans, Ghost(ma.union(mb)))
            },
        }
    }

    fn mark_slots(&self, slots: &Vec<Slot>) -> (r: Vec<Span>)
        requires
            self.wf(),
            forall|i: int, j: int| 0 <= i < slot_views(slots@).len() && 0 <= j < slot_views(slots@)[i].alts.len() ==> (#[trigger] slot_views(slots@)[i].alts[j]).valid(),
        ensures
            is_points(r@, any_mark(slot_marks(slot_views(slots@), self.doc()))),
        decreases slots, 0nat,
    {
        let ghost doc = self.doc();
        let ghost sv = slot_views(slots@);
        let ghost ms = slot_marks(sv, doc);
        let mut inner: Vec<Span> = Vec::new();
        let mut i: usize = 0;
        proof {
            lemma_points_none(inner@, ms);
        }
        while i < slots.len()
            invariant
                self.wf(),
                doc == self.doc(),
                sv == slot_views(slots@),
                ms == slot_marks(sv, doc),
                forall|i: int, j: int| 0 <= i < sv.len() && 0 <= j < sv[i].alts.len() ==> (#[trigger] sv[i].alts[j]).valid(),
                i <= slots@.len(),
                is_points(inner@, any_mark(ms.take(i as int))),
            decreases slots@.len() - i,
        {
            let s: &Slot = &slots[i];
            proof {
                assert(decreases_to!(*slots => slots[i as int]));
                assert(decreases_to!(slots[i as int] => s.alts));
                lemma_slot_view(*s);
                assert(sv[i as int] == s.view());
                assert forall|k: int| 0 <= k < s.alts@.len() implies (#[trigger] query_views(s.alts@)[k]).valid() by {
                    assert(sv[i as int].alts[k].valid());
                }
            }
            let mut more: Vec<Span> = self.mark_all(&s.alts);
            let ghost (was, mv) = (inner@, more@);
            inner.append(&mut more);
            proof {
                assert(inner@ =~= was + mv);
                lemma_points_concat(was, mv, any_mark(ms.take(i as int)), ms[i as int]);
                lemma_any_mark(ms, i as int);
            }
            i = i + 1;
        }
        proof {
            assert(ms.take(i as int) =~= ms);
        }
        inner
    }

    fn mark_all(&self, cs: &Vec<Query>) -> (r: Vec<Span>)
        requires
            self.wf(),
            forall|i: int| 0 <= i < cs@.len() ==> (#[trigger] query_views(cs@)[i]).valid(),
        ensures
            is_points(r@, any_mark(marks_each(query_views(cs@), self.doc()))),
        decreases cs, 0nat,
    {
        let ghost doc = self.doc();
        let ghost qv = query_views(cs@);
        let ghost ms = marks_each(qv, doc);
        let mut out: Vec<Span> = Vec::new();
        let mut i: usize = 0;
        proof {
            lemma_points_none(out@, ms);
        }
        while i < cs.len()
            invariant
                self.wf(),
                doc == self.doc(),
                qv == query_views(cs@),
                ms == marks_each(qv, doc),
                forall|i: int| 0 <= i < cs@.len() ==> (#[trigger] qv[i]).valid(),
                i <= cs@.len(),
                is_points(out@, any_mark(ms.take(i as int))),
            decreases cs@.len() - i,
        {
            proof {
                assert(qv[i as int] == cs@[i as int].view());
                assert(decreases_to!(*cs => cs[i as int]));
            }
            let mut more: Vec<Span> = self.mark(&cs[i]);
            let ghost (was, mv) = (out@, more@);
            out.append(&mut more);
            proof {
                assert(out@ =~= was + mv);
                lemma_points_concat(was, mv, any_mark(ms.take(i as int)), ms[i as int]);
                lemma_any_mark(ms, i as int);
            }
            i = i + 1;
        }
        proof {
            assert(ms.take(i as int) =~= ms);
        }
        out
    }

    fn leaf_spans(&self, leaf: &Query) -> (r: Vec<Span>)
        requires
            self.wf(),
        ensures
            in_order(r@),
            forall|x: (int, int)| #[trigger] spans_of(r@).contains(x) <==> x.0 == x.1 && stands(leaf.view(), self.doc(), x.0),
            leaf.view().is_leaf() ==> spans_of(r@) == spans(leaf.view(), self.doc()),
            forward(spans_of(r@)),
    {
        let found: Vec<(String, Vec<u32>)> = self.leaf_terms(leaf);
        let ghost doc = self.doc();
        let mut all: Vec<Span> = Vec::new();
        let mut i: usize = 0;
        while i < found.len()
            invariant
                i <= found@.len(),
                forall|x: (int, int)| #[trigger] spans_of(all@).contains(x) <==> x.0 == x.1 && exists|k: int| 0 <= k < i && positions_of((#[trigger] found@[k]).1@).contains(x.0),
            decreases found@.len() - i,
        {
            let ps: &Vec<u32> = &found[i].1;
            let ghost was = all@;
            let mut j: usize = 0;
            while j < ps.len()
                invariant
                    j <= ps@.len(),
                    forall|x: (int, int)| #[trigger] spans_of(all@).contains(x) <==> spans_of(was).contains(x) || (x.0 == x.1 && exists|k: int| 0 <= k < j && #[trigger] ps@[k] == x.0),
                decreases ps@.len() - j,
            {
                let p: u32 = ps[j];
                let ghost mid = all@;
                all.push((p, p));
                proof {
                    crate::interval::lemma_spans_push(mid, (p, p));
                    assert forall|x: (int, int)| #[trigger] spans_of(all@).contains(x) <==> spans_of(was).contains(x) || (x.0 == x.1 && exists|k: int| 0 <= k < j + 1 && #[trigger] ps@[k] == x.0) by {
                        assert(spans_of(mid).contains(x) <==> spans_of(was).contains(x) || (x.0 == x.1 && exists|k: int| 0 <= k < j && #[trigger] ps@[k] == x.0));
                        if x == (p as int, p as int) {
                            assert(ps@[j as int] == x.0);
                        }
                    }
                }
                j = j + 1;
            }
            proof {
                assert forall|x: (int, int)| #[trigger] spans_of(all@).contains(x) <==> x.0 == x.1 && exists|k: int| 0 <= k < i + 1 && positions_of((#[trigger] found@[k]).1@).contains(x.0) by {
                    if x.0 == x.1 && (exists|k: int| 0 <= k < j && #[trigger] ps@[k] == x.0) {
                        assert(positions_of(found@[i as int].1@).contains(x.0));
                    }
                }
            }
            i = i + 1;
        }
        let ghost before = spans_of(all@);
        minimize(&mut all);
        proof {
            assert(crate::interval::antichain(before));
            lemma_antichain_minimal(before);
            assert forall|x: (int, int)| #[trigger] spans_of(all@).contains(x) <==> x.0 == x.1 && stands(leaf.view(), doc, x.0) by {
                assert(before.contains(x) <==> x.0 == x.1 && exists|k: int| 0 <= k < found@.len() && positions_of((#[trigger] found@[k]).1@).contains(x.0));
                if before.contains(x) {
                    let k = choose|k: int| 0 <= k < found@.len() && positions_of((#[trigger] found@[k]).1@).contains(x.0);
                    assert(stands(QueryView::Term(found@[k].0@), doc, x.0));
                    let m = choose|m: int| 0 <= m < doc.len() && (#[trigger] doc[m]).1 == x.0 && accepts(QueryView::Term(found@[k].0@), doc[m].0);
                    assert(accepts(leaf.view(), doc[m].0));
                }
                if x.0 == x.1 && stands(leaf.view(), doc, x.0) {
                    let m = choose|m: int| 0 <= m < doc.len() && (#[trigger] doc[m]).1 == x.0 && accepts(leaf.view(), doc[m].0);
                    let k = choose|k: int| 0 <= k < found@.len() && (#[trigger] found@[k]).0@ == doc[m].0;
                    assert(stands(QueryView::Term(found@[k].0@), doc, x.0));
                    assert(positions_of(found@[k].1@).contains(x.0));
                }
            }
            if leaf.view().is_leaf() {
                assert(spans_of(all@) =~= spans(leaf.view(), doc));
            }
            assert forall|x: (int, int)| #[trigger] spans_of(all@).contains(x) implies 0 <= x.0 <= x.1 by {
                let k = choose|k: int| 0 <= k < all@.len() && span_view(#[trigger] all@[k]) == x;
            }
        }
        all
    }

    /// Positions matched by any alternative of a slot, sorted.
    fn slot_positions(&self, slot: &Slot) -> (r: Vec<u32>)
        requires
            self.wf(),
        ensures
            ascends(r@),
            positions_of(r@) == slot_set(slot.view(), self.doc()),
    {
        let ghost doc = self.doc();
        let ghost av = slot.view().alts;
        let mut all: Vec<Span> = Vec::new();
        let mut i: usize = 0;
        proof {
            lemma_slot_view(*slot);
        }
        while i < slot.alts.len()
            invariant
                self.wf(),
                doc == self.doc(),
                av == query_views(slot.alts@),
                i <= slot.alts@.len(),
                forall|x: (int, int)| #[trigger] spans_of(all@).contains(x) <==> x.0 == x.1 && exists|a: int| 0 <= a < i && stands(#[trigger] av[a], doc, x.0),
            decreases slot.alts@.len() - i,
        {
            let mut more: Vec<Span> = self.leaf_spans(&slot.alts[i]);
            let ghost (was, mv) = (all@, more@);
            all.append(&mut more);
            proof {
                assert(av[i as int] == slot.alts@[i as int].view());
                assert(all@ =~= was + mv);
                lemma_spans_concat(was, mv);
                assert forall|x: (int, int)| #[trigger] spans_of(all@).contains(x) <==> x.0 == x.1 && exists|a: int| 0 <= a < i + 1 && stands(#[trigger] av[a], doc, x.0) by {
                    assert(spans_of(was).contains(x) <==> x.0 == x.1 && exists|a: int| 0 <= a < i && stands(#[trigger] av[a], doc, x.0));
                    assert(spans_of(mv).contains(x) <==> x.0 == x.1 && stands(av[i as int], doc, x.0));
                }
            }
            i = i + 1;
        }
        let ghost before = spans_of(all@);
        minimize(&mut all);
        proof {
            assert(crate::interval::antichain(before));
            lemma_antichain_minimal(before);
        }
        let mut out: Vec<u32> = Vec::new();
        let mut k: usize = 0;
        while k < all.len()
            invariant
                k <= all@.len(),
                out@.len() == k,
                forall|j: int| 0 <= j < k ==> #[trigger] out@[j] == all@[j].0,
            decreases all@.len() - k,
        {
            out.push(all[k].0);
            k = k + 1;
        }
        proof {
            assert(positions_of(out@) =~= slot_set(slot.view(), doc)) by {
                assert forall|p: int| positions_of(out@).contains(p) <==> slot_set(slot.view(), doc).contains(p) by {
                    assert(before.contains((p, p)) <==> slot_set(slot.view(), doc).contains(p));
                    if positions_of(out@).contains(p) {
                        let j = choose|j: int| 0 <= j < out@.len() && #[trigger] out@[j] == p;
                        assert(spans_of(all@).contains(span_view(all@[j])));
                        assert(before.contains(span_view(all@[j])));
                    }
                    if before.contains((p, p)) {
                        let j = choose|j: int| 0 <= j < all@.len() && span_view(#[trigger] all@[j]) == (p, p);
                        assert(out@[j] == p);
                    }
                }
            }
        }
        out
    }
}

/// One interval for each position of the set.
#[verifier::opaque]
spec fn is_points(v: Seq<Span>, m: Set<int>) -> bool {
    forall|x: (int, int)| #[trigger] spans_of(v).contains(x) <==> x.0 == x.1 && m.contains(x.0)
}

proof fn lemma_points_concat(a: Seq<Span>, b: Seq<Span>, ma: Set<int>, mb: Set<int>)
    requires
        is_points(a, ma),
        is_points(b, mb),
    ensures
        is_points(a + b, ma.union(mb)),
{
    reveal(is_points);
    lemma_spans_concat(a, b);
}

proof fn lemma_points_none(v: Seq<Span>, ms: Seq<Set<int>>)
    requires
        v.len() == 0,
    ensures
        is_points(v, any_mark(ms.take(0))),
{
    reveal(is_points);
}

proof fn lemma_any_mark(ms: Seq<Set<int>>, n: int)
    requires
        0 <= n < ms.len(),
    ensures
        any_mark(ms.take(n + 1)) == any_mark(ms.take(n)).union(ms[n]),
{
    let (a, b) = (ms.take(n), ms.take(n + 1));
    assert forall|p: int| any_mark(b).contains(p) <==> any_mark(a).union(ms[n]).contains(p) by {
        if ms[n].contains(p) {
            assert(b[n].contains(p));
        }
        if any_mark(a).contains(p) {
            let i = choose|i: int| 0 <= i < a.len() && (#[trigger] a[i]).contains(p);
            assert(b[i].contains(p));
        }
        if any_mark(b).contains(p) {
            let i = choose|i: int| 0 <= i < b.len() && (#[trigger] b[i]).contains(p);
            if i < n {
                assert(a[i].contains(p));
            }
        }
    }
    assert(any_mark(b) =~= any_mark(a).union(ms[n]));
}

/// The positions that lie inside one of `spans`.
fn keep_inside(v: &Vec<Span>, spans: &Vec<Span>, Ghost(m): Ghost<Set<int>>) -> (r: Vec<Span>)
    requires
        is_points(v@, m),
    ensures
        is_points(r@, held(spans_of(spans@), m)),
{
    let mut out: Vec<Span> = Vec::new();
    let mut i: usize = 0;
    proof {
        assert(spans_of(v@.take(0)) =~= Set::empty());
    }
    while i < v.len()
        invariant
            i <= v@.len(),
            forall|x: (int, int)| #[trigger] spans_of(out@).contains(x) <==> spans_of(v@.take(i as int)).contains(x) && inside(spans_of(spans@), x.0),
        decreases v@.len() - i,
    {
        let e: Span = v[i];
        let mut found: bool = false;
        let mut k: usize = 0;
        while k < spans.len() && !found
            invariant
                k <= spans@.len(),
                found ==> inside(spans_of(spans@), e.0 as int),
                !found ==> forall|j: int| 0 <= j < k ==> !((#[trigger] spans@[j]).0 <= e.0 <= spans@[j].1),
            decreases spans@.len() - k + (if found { 0int } else { 1 }),
        {
            let (s, t): Span = spans[k];
            if s <= e.0 && e.0 <= t {
                proof {
                    assert(spans_of(spans@).contains(span_view(spans@[k as int])));
                }
                found = true;
            } else {
                k = k + 1;
            }
        }
        let ghost was = out@;
        if found {
            out.push(e);
        }
        proof {
            if !found && inside(spans_of(spans@), e.0 as int) {
                let x = choose|x: (int, int)| #[trigger] spans_of(spans@).contains(x) && x.0 <= e.0 <= x.1;
                let j = choose|j: int| 0 <= j < spans@.len() && span_view(#[trigger] spans@[j]) == x;
                assert(!(spans@[j].0 <= e.0 <= spans@[j].1));
            }
            assert(v@.take(i + 1) =~= v@.take(i as int).push(e));
            crate::interval::lemma_spans_push(v@.take(i as int), e);
            crate::interval::lemma_spans_push(was, e);
        }
        i = i + 1;
    }
    proof {
        assert(v@.take(i as int) =~= v@);
        reveal(is_points);
    }
    out
}

fn push_all(all: &mut Vec<Span>, list: &Vec<Span>)
    ensures
        final(all)@ == old(all)@ + list@,
{
    let mut i: usize = 0;
    while i < list.len()
        invariant
            i <= list@.len(),
            all@ == old(all)@ + list@.take(i as int),
        decreases list@.len() - i,
    {
        all.push(list[i]);
        proof {
            assert(list@.take(i + 1) =~= list@.take(i as int).push(list@[i as int]));
        }
        i = i + 1;
    }
    proof {
        assert(list@.take(i as int) =~= list@);
    }
}

proof fn lemma_union_step(ls: Seq<Set<(int, int)>>, n: int)
    requires
        0 <= n < ls.len(),
    ensures
        union_all(ls.take(n + 1)) == union_all(ls.take(n)).union(ls[n]),
{
    let (a, b) = (ls.take(n), ls.take(n + 1));
    assert forall|x: (int, int)| union_all(b).contains(x) <==> union_all(a).union(ls[n]).contains(x) by {
        if ls[n].contains(x) {
            assert(b[n].contains(x));
        }
        if union_all(a).contains(x) {
            let i = choose|i: int| 0 <= i < a.len() && (#[trigger] a[i]).contains(x);
            assert(b[i].contains(x));
        }
        if union_all(b).contains(x) {
            let i = choose|i: int| 0 <= i < b.len() && (#[trigger] b[i]).contains(x);
            if i < n {
                assert(a[i].contains(x));
            }
        }
    }
    assert(union_all(b) =~= union_all(a).union(ls[n]));
}

/// The windows of the positive operands of an `AND`.
proof fn lemma_and(cs: Seq<QueryView>, doc: Doc, ls: Seq<Set<(int, int)>>, ids: Seq<int>)
    requires
        ids.len() == ls.len(),
        forall|k: int| 0 <= k < ids.len() ==> 0 <= #[trigger] ids[k] < cs.len() && !(cs[ids[k]] is Not) && ls[k] == spans(cs[ids[k]], doc),
        forall|j: int| 0 <= j < cs.len() && !((#[trigger] cs[j]) is Not) ==> ids.contains(j),
        forall|j: int| 0 <= j < cs.len() && ((#[trigger] cs[j]) is Not) ==> !satisfied(*cs[j]->Not_0, doc),
    ensures
        spans(QueryView::And(cs), doc) == minimal(cover_windows(ls, ls.len() as int)),
{
    let each = operands_each(cs, doc);
    let w = all_windows(cs, each);
    assert(!denied(cs, each)) by {
        if denied(cs, each) {
            let (i, x) = choose|i: int, x: (int, int)| 0 <= i < cs.len() && (cs[i] is Not) && #[trigger] each[i].contains(x);
            assert(cs[i] is Not);
            assert(each[i] == spans(*cs[i]->Not_0, doc));
            assert(satisfied(*cs[i]->Not_0, doc));
        }
    }
    let c = cover_windows(ls, ls.len() as int);
    assert forall|x: (int, int)| w.contains(x) <==> c.contains(x) by {
        lemma_count_all(ls, ls.len() as int, x);
        if w.contains(x) {
            let i = choose|i: int| 0 <= i < cs.len() && !((#[trigger] cs[i]) is Not);
            assert(ids.contains(i));
            assert forall|k: int| 0 <= k < ls.len() implies reaches(#[trigger] ls[k], x) by {
                assert(0 <= ids[k] < cs.len());
                assert(!(cs[ids[k]] is Not));
                assert(reaches(each[ids[k]], x));
            }
        }
        if c.contains(x) {
            assert(0 <= ids[0] < cs.len());
            assert(!(cs[ids[0]] is Not));
            assert forall|i: int| 0 <= i < cs.len() && !((#[trigger] cs[i]) is Not) implies reaches(each[i], x) by {
                let k = ids.index_of(i);
                assert(ids.contains(i));
                assert(reaches(ls[k], x));
            }
        }
    }
    assert(w =~= c);
}

/// All of the first `n` lists reach exactly if `n` of them do.
pub proof fn lemma_count_all(ls: Seq<Set<(int, int)>>, n: int, x: (int, int))
    requires
        0 <= n <= ls.len(),
    ensures
        0 <= count_in(ls, n, x, -1) <= n,
        count_in(ls, n, x, -1) >= n <==> forall|k: int| 0 <= k < n ==> reaches(#[trigger] ls[k], x),
    decreases n,
{
    if n > 0 {
        lemma_count_all(ls, n - 1, x);
    }
}

/// Intervals run forward from natural positions.
pub proof fn lemma_forward(q: QueryView, doc: Doc)
    ensures
        (forall|k: int| 0 <= k < doc.len() ==> 0 <= (#[trigger] doc[k]).1) && q.valid() ==> forward(spans(q, doc)),
    decreases q,
{
    if (forall|k: int| 0 <= k < doc.len() ==> 0 <= (#[trigger] doc[k]).1) && q.valid() {
        match q {
            QueryView::Boost(inner, w) => lemma_forward(*inner, doc),
            QueryView::Or(cs) => {
                assert forall|x: (int, int)| #[trigger] spans(q, doc).contains(x) implies 0 <= x.0 <= x.1 by {
                    let each = spans_each(cs, doc);
                    let i = choose|i: int| 0 <= i < each.len() && (#[trigger] each[i]).contains(x);
                    assert(cs[i].valid());
                    lemma_forward(cs[i], doc);
                }
            },
            QueryView::Near { left, right, gap, ordered } => {
                lemma_forward(*left, doc);
                lemma_forward(*right, doc);
            },
            QueryView::Phrase { slots, slop } => {
                let sets = slot_sets(slots, doc);
                let offs = slot_offsets(slots);
                assert forall|x: (int, int)| #[trigger] spans(q, doc).contains(x) implies 0 <= x.0 <= x.1 by {
                    let p = choose|p: Seq<int>| #[trigger] crate::windows::is_placing(sets, offs, p) && x == (p[0], p.last()) && (p.last() - p[0]) - (offs.last() - offs[0]) <= slop;
                    lemma_placing_forward(sets, offs, p, p.len() - 1);
                    assert(sets[0].contains(p[0]));
                    assert(sets[0] == slot_set(slots[0], doc));
                    let a = choose|a: int| 0 <= a < slots[0].alts.len() && stands(#[trigger] slots[0].alts[a], doc, p[0]);
                    let i = choose|i: int| 0 <= i < doc.len() && (#[trigger] doc[i]).1 == p[0] && accepts(slots[0].alts[a], doc[i].0);
                }
            },
            _ => {},
        }
    }
}

/// A document's intervals end inside it: at the position of one of its words.
pub proof fn spans_end_inside(q: QueryView, doc: Doc, n: int)
    requires
        forall|k: int| 0 <= k < doc.len() ==> 0 <= (#[trigger] doc[k]).1 < n,
        q.valid(),
    ensures
        forall|x: (int, int)| #[trigger] spans(q, doc).contains(x) ==> x.1 < n,
    decreases q,
{
    lemma_forward(q, doc);
    match q {
        QueryView::Boost(inner, w) => {
            spans_end_inside(*inner, doc, n);
            assert forall|x: (int, int)| #[trigger] spans(q, doc).contains(x) implies x.1 < n by {
                assert(spans(*inner, doc).contains(x));
            }
        },
        QueryView::Or(cs) => {
            assert forall|x: (int, int)| #[trigger] spans(q, doc).contains(x) implies x.1 < n by {
                let each = spans_each(cs, doc);
                let i = choose|i: int| 0 <= i < each.len() && (#[trigger] each[i]).contains(x);
                assert(cs[i].valid());
                spans_end_inside(cs[i], doc, n);
                assert(spans(cs[i], doc).contains(x));
            }
        },
        QueryView::And(cs) => {
            let ls = operands_each(cs, doc);
            assert forall|i: int| 0 <= i < cs.len() && !(cs[i] is Not) implies ends_below(#[trigger] ls[i], n) by {
                assert(cs[i].valid());
                spans_end_inside(cs[i], doc, n);
                lemma_forward(cs[i], doc);
            }
            assert forall|x: (int, int)| #[trigger] spans(q, doc).contains(x) implies x.1 < n by {
                let w = all_windows(cs, ls);
                assert(w.contains(x));
                if x.1 >= n {
                    let y = (x.0, x.1 - 1);
                    assert forall|i: int| 0 <= i < cs.len() && !((#[trigger] cs[i]) is Not) implies reaches(ls[i], y) by {
                        assert(ends_below(ls[i], n));
                        lemma_reaches_less(ls[i], x, n);
                    }
                    let i = choose|i: int| 0 <= i < cs.len() && !((#[trigger] cs[i]) is Not);
                    assert(ends_below(ls[i], n));
                    lemma_reaches_less(ls[i], x, n);
                    assert(w.contains(y));
                    assert(within(x, y));
                }
            }
        },
        QueryView::AtLeast { min, of } => {
            let ls = spans_each(of, doc);
            assert forall|i: int| 0 <= i < ls.len() implies ends_below(#[trigger] ls[i], n) by {
                assert(of[i].valid());
                spans_end_inside(of[i], doc, n);
                lemma_forward(of[i], doc);
            }
            assert forall|x: (int, int)| #[trigger] spans(q, doc).contains(x) implies x.1 < n by {
                let w = cover_windows(ls, min);
                assert(w.contains(x));
                if x.1 >= n {
                    let y = (x.0, x.1 - 1);
                    lemma_count_less(ls, ls.len() as int, x, n);
                    assert(w.contains(y));
                    assert(within(x, y));
                }
            }
        },
        QueryView::Near { left, right, gap, ordered } => {
            spans_end_inside(*left, doc, n);
            spans_end_inside(*right, doc, n);
            let (l, r) = (spans(*left, doc), spans(*right, doc));
            assert forall|x: (int, int)| #[trigger] spans(q, doc).contains(x) implies x.1 < n by {
                assert(crate::interval::near_windows(l, r, gap, ordered).contains(x));
                if crate::interval::then_windows(l, r, gap).contains(x) {
                    let (a, b) = choose|a: (int, int), b: (int, int)|
                        #[trigger] l.contains(a) && #[trigger] r.contains(b) && a.1 < b.0 && b.0 - a.1 - 1 <= gap && x == (a.0, b.1);
                    assert(r.contains(b));
                } else {
                    let (a, b) = choose|a: (int, int), b: (int, int)|
                        #[trigger] r.contains(a) && #[trigger] l.contains(b) && a.1 < b.0 && b.0 - a.1 - 1 <= gap && x == (a.0, b.1);
                    assert(l.contains(b));
                }
            }
        },
        QueryView::Phrase { slots, slop } => {
            let sets = slot_sets(slots, doc);
            let offs = slot_offsets(slots);
            assert forall|x: (int, int)| #[trigger] spans(q, doc).contains(x) implies x.1 < n by {
                let p = choose|p: Seq<int>| #[trigger] crate::windows::is_placing(sets, offs, p) && x == (p[0], p.last()) && (p.last() - p[0]) - (offs.last() - offs[0]) <= slop;
                let m = p.len() - 1;
                assert(sets[m].contains(p[m]));
                assert(sets[m] == slot_set(slots[m], doc));
                let a = choose|a: int| 0 <= a < slots[m].alts.len() && stands(#[trigger] slots[m].alts[a], doc, p[m]);
                let i = choose|i: int| 0 <= i < doc.len() && (#[trigger] doc[i]).1 == p[m] && accepts(slots[m].alts[a], doc[i].0);
            }
        },
        QueryView::Not(_) => {},
        _ => {
            assert forall|x: (int, int)| #[trigger] spans(q, doc).contains(x) implies x.1 < n by {
                assert(stands(q, doc, x.0));
            }
        },
    }
}

/// Intervals that run forward and end below `n`.
spec fn ends_below(s: Set<(int, int)>, n: int) -> bool {
    forall|x: (int, int)| #[trigger] s.contains(x) ==> 0 <= x.0 <= x.1 < n
}

/// A window that goes past all intervals may end earlier.
proof fn lemma_reaches_less(s: Set<(int, int)>, x: (int, int), n: int)
    requires
        ends_below(s, n),
        x.1 >= n,
    ensures
        reaches(s, x) ==> reaches(s, (x.0, x.1 - 1)) && x.0 <= x.1 - 1,
        reaches(s, (x.0, x.1 - 1)) ==> reaches(s, x),
{
    let z = (x.0, x.1 - 1);
    if reaches(s, x) {
        let y = choose|y: (int, int)| #[trigger] s.contains(y) && within(x, y);
        assert(s.contains(y) && within(z, y));
    }
    if reaches(s, z) {
        let y = choose|y: (int, int)| #[trigger] s.contains(y) && within(z, y);
        assert(s.contains(y) && within(x, y));
    }
}

proof fn lemma_count_less(ls: Seq<Set<(int, int)>>, k: int, x: (int, int), n: int)
    requires
        0 <= k <= ls.len(),
        forall|i: int| 0 <= i < ls.len() ==> ends_below(#[trigger] ls[i], n),
        x.1 >= n,
    ensures
        count_in(ls, k, (x.0, x.1 - 1), -1) == count_in(ls, k, x, -1),
        count_in(ls, k, x, -1) >= 1 ==> x.0 <= x.1 - 1,
    decreases k,
{
    if k > 0 {
        lemma_count_less(ls, k - 1, x, n);
        assert(ends_below(ls[k - 1], n));
        lemma_reaches_less(ls[k - 1], x, n);
    }
}

proof fn lemma_placing_forward(pos: Seq<Set<int>>, offs: Seq<int>, p: Seq<int>, j: int)
    requires
        crate::windows::is_placing(pos, offs, p),
        crate::windows::offsets_ok(offs),
        offs.len() == pos.len(),
        0 <= j < p.len(),
    ensures
        p[0] <= p[j],
    decreases j,
{
    if j > 0 {
        lemma_placing_forward(pos, offs, p, j - 1);
        assert(p[j] >= p[j - 1] + offs[j] - offs[j - 1]);
        assert(offs[j - 1] <= offs[j]);
    }
}

// ---------------------------------------------------------------------------
// Terms and positions
// ---------------------------------------------------------------------------

proof fn lemma_stands_push(doc: Doc, term: Seq<char>, pos: int, t: Seq<char>, p: int)
    ensures
        stands(QueryView::Term(t), doc.push((term, pos)), p) <==> stands(QueryView::Term(t), doc, p) || (t == term && p == pos),
{
    let d2 = doc.push((term, pos));
    if stands(QueryView::Term(t), doc, p) {
        let i = choose|i: int| 0 <= i < doc.len() && (#[trigger] doc[i]).1 == p && accepts(QueryView::Term(t), doc[i].0);
        assert(d2[i] == doc[i]);
    }
    if t == term && p == pos {
        assert(d2[doc.len() as int] == (term, pos));
    }
    if stands(QueryView::Term(t), d2, p) {
        let i = choose|i: int| 0 <= i < d2.len() && (#[trigger] d2[i]).1 == p && accepts(QueryView::Term(t), d2[i].0);
        if i < doc.len() {
            assert(doc[i] == d2[i]);
        }
    }
}

proof fn lemma_positions_push(v: Seq<u32>, x: u32, p: int)
    ensures
        positions_of(v.push(x)).contains(p) <==> positions_of(v).contains(p) || p == x,
{
    let w = v.push(x);
    if positions_of(v).contains(p) {
        let i = choose|i: int| 0 <= i < v.len() && #[trigger] v[i] == p;
        assert(w[i] == p);
    }
    if p == x {
        assert(w[v.len() as int] == p);
    }
    if positions_of(w).contains(p) {
        let i = choose|i: int| 0 <= i < w.len() && #[trigger] w[i] == p;
        if i < v.len() {
            assert(v[i] == p);
        }
    }
}

/// Positions ascend strictly.
pub open spec fn positions_ascend(doc: Doc) -> bool {
    &&& forall|i: int, j: int| 0 <= i < j < doc.len() ==> (#[trigger] doc[i]).1 < (#[trigger] doc[j]).1
    &&& forall|i: int| 0 <= i < doc.len() ==> 0 <= (#[trigger] doc[i]).1
}

proof fn lemma_kept_ascend(ws: Seq<(int, Seq<char>)>, keep: Seq<bool>, n: int)
    requires
        0 <= n,
    ensures
        positions_ascend(kept_terms(ws, keep, n)),
        forall|i: int| 0 <= i < kept_terms(ws, keep, n).len() ==> (#[trigger] kept_terms(ws, keep, n)[i]).1 < n,
    decreases n,
{
    if n > 0 {
        lemma_kept_ascend(ws, keep, n - 1);
    }
}

/// The terms of the first `n` words, with their positions.
spec fn kept_all(ws: Seq<(int, Seq<char>)>, n: int) -> Doc {
    Seq::new(tokens_of_words(ws, n).len(), |i: int| (tokens_of_words(ws, n)[i].term, tokens_of_words(ws, n)[i].pos))
}

proof fn lemma_kept_all(ws: Seq<(int, Seq<char>)>, n: int)
    requires
        0 <= n,
    ensures
        n > 0 ==> kept_all(ws, n) == if is_kept(fold(ws[n - 1].1)) { kept_all(ws, n - 1).push((fold(ws[n - 1].1), n - 1)) } else { kept_all(ws, n - 1) },
{
    if n > 0 {
        if is_kept(fold(ws[n - 1].1)) {
            assert(kept_all(ws, n) =~= kept_all(ws, n - 1).push((fold(ws[n - 1].1), n - 1)));
        } else {
            assert(kept_all(ws, n) =~= kept_all(ws, n - 1));
        }
    }
}

/// With every word kept, the terms are those of the tokens.
proof fn lemma_all_kept(ws: Seq<(int, Seq<char>)>, keep: Seq<bool>, n: int)
    requires
        0 <= n <= keep.len(),
        forall|i: int| 0 <= i < n ==> #[trigger] keep[i],
    ensures
        kept_terms(ws, keep, n) == kept_all(ws, n),
    decreases n,
{
    if n > 0 {
        lemma_all_kept(ws, keep, n - 1);
        lemma_kept_all(ws, n);
        assert(keep[n - 1]);
    } else {
        assert(kept_terms(ws, keep, n) =~= kept_all(ws, n));
    }
}

/// Skipping words that cannot be wanted loses no wanted term.
proof fn lemma_wanted_kept(ws: Seq<(int, Seq<char>)>, keep: Seq<bool>, n: int, w: Wanted)
    requires
        0 <= n <= keep.len(),
        forall|i: int| 0 <= i < n && !(#[trigger] keep[i]) ==> !(w.wants(fold(ws[i].1)) && is_kept(fold(ws[i].1))),
    ensures
        wanted_part(kept_terms(ws, keep, n), w) == wanted_part(kept_all(ws, n), w),
    decreases n,
{
    reveal(Seq::filter);
    if n > 0 {
        lemma_wanted_kept(ws, keep, n - 1, w);
        lemma_kept_all(ws, n);
        let e = (fold(ws[n - 1].1), n - 1);
        let (a, b) = (kept_terms(ws, keep, n - 1), kept_all(ws, n - 1));
        assert(a.push(e).drop_last() =~= a);
        assert(b.push(e).drop_last() =~= b);
        assert(keep[n - 1] || !(w.wants(fold(ws[n - 1].1)) && is_kept(fold(ws[n - 1].1))));
    } else {
        assert(kept_terms(ws, keep, n) =~= kept_all(ws, n));
    }
}

proof fn lemma_doc_terms_push(doc: Doc, e: (Seq<char>, int), t: Seq<char>)
    ensures
        doc_terms(doc.push(e)).contains(t) <==> doc_terms(doc).contains(t) || t == e.0,
{
    let d2 = doc.push(e);
    if doc_terms(doc).contains(t) {
        let i = choose|i: int| 0 <= i < doc.len() && (#[trigger] doc[i]).0 == t;
        assert(d2[i].0 == t);
    }
    if t == e.0 {
        assert(d2[doc.len() as int].0 == t);
    }
    if doc_terms(d2).contains(t) {
        let i = choose|i: int| 0 <= i < d2.len() && (#[trigger] d2[i]).0 == t;
        if i < doc.len() {
            assert(doc[i].0 == t);
        }
    }
}

proof fn lemma_doc_terms_finite(doc: Doc)
    ensures
        doc_terms(doc).finite(),
{
    let s = doc.map_values(|e: (Seq<char>, int)| e.0);
    vstd::seq_lib::seq_to_set_is_finite(s);
    assert(doc_terms(doc) =~= s.to_set()) by {
        assert forall|t: Seq<char>| doc_terms(doc).contains(t) <==> s.to_set().contains(t) by {
            if doc_terms(doc).contains(t) {
                let i = choose|i: int| 0 <= i < doc.len() && (#[trigger] doc[i]).0 == t;
                assert(s[i] == t);
            }
            if s.contains(t) {
                let i = s.index_of(t);
                assert(doc[i].0 == t);
            }
        }
    }
}

/// A table of a document's terms has as many entries as distinct terms.
proof fn lemma_distinct(table: TermTable, doc: Doc)
    requires
        table.wf(),
        forall|t: Seq<char>| table.names().contains(t) <==> doc_terms(doc).contains(t),
    ensures
        doc_terms(doc).finite(),
        table.names().len() == doc_terms(doc).len(),
{
    let s = table.names();
    table.lemma_distinct();
    assert(s.no_duplicates());
    s.unique_seq_to_set();
    vstd::seq_lib::seq_to_set_is_finite(s);
    assert(s.to_set() =~= doc_terms(doc));
}

// ---------------------------------------------------------------------------
// Laws
// ---------------------------------------------------------------------------

/// Words that no part of the query accepts play no role: the document cut
/// down to what a query [`Wanted`] has the same intervals.
pub proof fn wanted_part_suffices(q: QueryView, doc: Doc, w: Wanted)
    requires
        forall|t: Seq<char>| asks(q, t) ==> #[trigger] w.wants(t),
    ensures
        spans(q, wanted_part(doc, w)) == spans(q, doc),
        satisfied(q, wanted_part(doc, w)) == satisfied(q, doc),
    decreases q,
{
    let part = wanted_part(doc, w);
    match q {
        QueryView::Boost(inner, x) => wanted_part_suffices(*inner, doc, w),
        QueryView::Not(n) => {},
        QueryView::Or(cs) => {
            assert(spans_each(cs, part) =~= spans_each(cs, doc)) by {
                assert forall|i: int| 0 <= i < cs.len() implies spans(cs[i], part) == spans(cs[i], doc) by {
                    lemma_asks_child(cs, i, w, q);
                    wanted_part_suffices(cs[i], doc, w);
                }
            }
        },
        QueryView::AtLeast { min, of } => {
            assert(spans_each(of, part) =~= spans_each(of, doc)) by {
                assert forall|i: int| 0 <= i < of.len() implies spans(of[i], part) == spans(of[i], doc) by {
                    lemma_asks_child(of, i, w, q);
                    wanted_part_suffices(of[i], doc, w);
                }
            }
        },
        QueryView::And(cs) => {
            assert(operands_each(cs, part) =~= operands_each(cs, doc)) by {
                assert forall|i: int| 0 <= i < cs.len() implies operands_each(cs, part)[i] == operands_each(cs, doc)[i] by {
                    lemma_asks_child(cs, i, w, q);
                    match cs[i] {
                        QueryView::Not(n) => wanted_part_suffices(*n, doc, w),
                        _ => wanted_part_suffices(cs[i], doc, w),
                    }
                }
            }
        },
        QueryView::Phrase { slots, slop } => {
            assert(slot_sets(slots, part) =~= slot_sets(slots, doc)) by {
                assert forall|i: int| 0 <= i < slots.len() implies slot_set(slots[i], part) == slot_set(slots[i], doc) by {
                    assert forall|p: int| slot_set(slots[i], part).contains(p) <==> slot_set(slots[i], doc).contains(p) by {
                        assert forall|a: int| 0 <= a < slots[i].alts.len() implies stands(#[trigger] slots[i].alts[a], part, p) == stands(slots[i].alts[a], doc, p) by {
                            let alt = slots[i].alts[a];
                            assert forall|t: Seq<char>| accepts(alt, t) implies #[trigger] w.wants(t) by {
                                assert(asks(slots[i].alts[a], t));
                                assert(asks(q, t));
                            }
                            lemma_stands_part(alt, doc, w, p);
                        }
                    }
                    assert(slot_set(slots[i], part) =~= slot_set(slots[i], doc));
                }
            }
        },
        QueryView::Near { left, right, gap, ordered } => {
            wanted_part_suffices(*left, doc, w);
            wanted_part_suffices(*right, doc, w);
        },
        _ => {
            assert forall|t: Seq<char>| accepts(q, t) implies #[trigger] w.wants(t) by {
                assert(asks(q, t));
            }
            assert(points(q, part) =~= points(q, doc)) by {
                assert forall|x: (int, int)| points(q, part).contains(x) <==> points(q, doc).contains(x) by {
                    lemma_stands_part(q, doc, w, x.0);
                }
            }
        },
    }
}

proof fn lemma_asks_child(cs: Seq<QueryView>, i: int, w: Wanted, q: QueryView)
    requires
        0 <= i < cs.len(),
        q == QueryView::And(cs) || q == QueryView::Or(cs) || (q is AtLeast && q->of == cs),
        forall|t: Seq<char>| asks(q, t) ==> #[trigger] w.wants(t),
    ensures
        forall|t: Seq<char>| asks(cs[i], t) ==> #[trigger] w.wants(t),
{
    assert forall|t: Seq<char>| asks(cs[i], t) implies #[trigger] w.wants(t) by {
        assert(0 <= i < cs.len() && asks(cs[i], t));
        match q {
            QueryView::And(x) => assert(asks(QueryView::And(x), t)),
            QueryView::Or(x) => assert(asks(QueryView::Or(x), t)),
            QueryView::AtLeast { min, of } => assert(asks(QueryView::AtLeast { min, of }, t)),
            _ => {},
        }
    }
}

proof fn lemma_stands_part(q: QueryView, doc: Doc, w: Wanted, p: int)
    requires
        forall|t: Seq<char>| accepts(q, t) ==> #[trigger] w.wants(t),
    ensures
        stands(q, wanted_part(doc, w), p) == stands(q, doc, p),
    decreases doc.len(),
{
    reveal(Seq::filter);
    if doc.len() > 0 {
        let rest = doc.drop_last();
        let e = doc.last();
        lemma_stands_part(q, rest, w, p);
        assert(doc =~= rest.push(e));
        lemma_stands_last(q, rest, e, p);
        lemma_stands_last(q, wanted_part(rest, w), e, p);
    }
}

proof fn lemma_stands_last(q: QueryView, doc: Doc, e: (Seq<char>, int), p: int)
    ensures
        stands(q, doc.push(e), p) <==> stands(q, doc, p) || (accepts(q, e.0) && e.1 == p),
{
    let d2 = doc.push(e);
    if stands(q, doc, p) {
        let i = choose|i: int| 0 <= i < doc.len() && (#[trigger] doc[i]).1 == p && accepts(q, doc[i].0);
        assert(d2[i] == doc[i]);
    }
    if accepts(q, e.0) && e.1 == p {
        assert(d2[doc.len() as int] == e);
    }
    if stands(q, d2, p) {
        let i = choose|i: int| 0 <= i < d2.len() && (#[trigger] d2[i]).1 == p && accepts(q, d2[i].0);
        if i < doc.len() {
            assert(doc[i] == d2[i]);
        }
    }
}

} // verus!
