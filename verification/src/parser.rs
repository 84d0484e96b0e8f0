//! From a query's tokens to the query.

use vstd::prelude::*;
use crate::error::QueryError;
use crate::grammar::{
    all_of, and_from, any_of, at_least, boosted_from, choices, ends_and, fuzz_of, list_from, moved, near_from, near_rest, no_lead,
    no_trail, number_text, op_name, or_from, phrase_of_terms, phrase_query, primary_from, query_of, slots_of, slots_with,
    threshold, with_part, word_at, word_query, ErrorView, ItemView, Parsed, TokView,
};
use crate::lexer::{alts_fit, item_len, item_views, items_len, joined, lex, quoted, text_of, tok_fits, tok_views, toks_fit, PhraseItem, Tok};
use crate::numeral::{decimal_of, parse_decimal, parse_whole};
use crate::plan::Plan;
use crate::planner::plan_of;
use crate::query::{lemma_parts, lemma_query_view, lemma_slot_view, query_views, slot_offsets, slot_views, Query, QueryView, Slot, SlotView, Weight};
use crate::segment::runnable;
use crate::text::{chars_of, fits};
use crate::tokenize::{chars_view, strings_view, terms_of, Analyzer};
use crate::windows::offsets_ok;

verus! {

/// The query, if there is one.
spec fn opt_view(q: Option<Query>) -> Option<QueryView> {
    match q {
        Some(x) => Some(x.view()),
        None => None,
    }
}

/// A result as it reads.
spec fn result_view(r: Result<Option<Query>, QueryError>) -> Result<Option<QueryView>, ErrorView> {
    match r {
        Ok(q) => Ok(opt_view(q)),
        Err(e) => Err(e.view()),
    }
}

spec fn valid_opt(q: Option<Query>) -> bool {
    q is Some ==> q->0.view().valid()
}

/// The result of reading an expression at `pos` is what the grammar says.
spec fn reads(r: (Result<Option<Query>, QueryError>, usize), want: Parsed, t: Seq<TokView>, pos: int) -> bool {
    match r.0 {
        Ok(q) => {
            &&& want == (Ok::<Option<QueryView>, ErrorView>(opt_view(q)), r.1 as int)
            &&& pos <= r.1 <= t.len()
            &&& valid_opt(q)
        },
        Err(e) => want.0 == Err::<Option<QueryView>, ErrorView>(e.view()),
    }
}

/// Every query of the list is valid.
spec fn all_valid(v: Seq<Query>) -> bool {
    forall|i: int| 0 <= i < v.len() ==> (#[trigger] query_views(v)[i]).valid()
}

proof fn lemma_views_push(v: Seq<Query>, q: Query)
    ensures
        query_views(v.push(q)) == query_views(v).push(q.view()),
        all_valid(v) && q.view().valid() ==> all_valid(v.push(q)),
{
    assert(query_views(v.push(q)) =~= query_views(v).push(q.view()));
    if all_valid(v) && q.view().valid() {
        assert forall|i: int| 0 <= i < v.push(q).len() implies (#[trigger] query_views(v.push(q))[i]).valid() by {
            if i < v.len() {
                assert(query_views(v)[i].valid());
            }
        }
    }
}

fn collapse_or(parts: Vec<Query>) -> (r: Option<Query>)
    requires
        all_valid(parts@),
    ensures
        opt_view(r) == any_of(query_views(parts@)),
        valid_opt(r),
{
    let mut v: Vec<Query> = parts;
    let n: usize = v.len();
    if n == 0 {
        return None;
    }
    if n == 1 {
        let last: Option<Query> = v.pop();
        proof {
            assert(query_views(parts@)[0] == parts@[0].view());
        }
        return last;
    }
    let q: Query = Query::Or(v);
    proof {
        lemma_query_view(q);
        lemma_parts(query_views(parts@));
    }
    Some(q)
}

fn collapse_and(parts: Vec<Query>) -> (r: Option<Query>)
    requires
        all_valid(parts@),
    ensures
        opt_view(r) == all_of(query_views(parts@)),
        valid_opt(r),
{
    let mut v: Vec<Query> = parts;
    let n: usize = v.len();
    if n == 0 {
        return None;
    }
    if n == 1 {
        let last: Option<Query> = v.pop();
        proof {
            assert(query_views(parts@)[0] == parts@[0].view());
        }
        return last;
    }
    let q: Query = Query::And(v);
    proof {
        lemma_query_view(q);
        lemma_parts(query_views(parts@));
    }
    Some(q)
}

/// Add a part, if there is one.
fn add_part(parts: &mut Vec<Query>, q: Option<Query>)
    requires
        all_valid(old(parts)@),
        valid_opt(q),
    ensures
        query_views(final(parts)@) == with_part(query_views(old(parts)@), opt_view(q)),
        all_valid(final(parts)@),
{
    if let Some(x) = q {
        let ghost was = parts@;
        parts.push(x);
        proof {
            lemma_views_push(was, x);
        }
    }
}

/// The decimal digits of a number.
pub(crate) fn number_string(n: u64) -> (r: Vec<char>)
    ensures
        r@ == number_text(n as int),
    decreases n,
{
    if n < 10 {
        let mut v: Vec<char> = Vec::new();
        v.push((48 + n as u8) as char);
        assert(v@ =~= number_text(n as int));
        v
    } else {
        let mut v: Vec<char> = number_string(n / 10);
        v.push((48 + (n % 10) as u8) as char);
        v
    }
}

/// `THEN/n` or `NEAR/n`.
fn op_string(ordered: bool, gap: u32) -> (r: String)
    ensures
        r@ == op_name(ordered) + number_text(gap as int),
{
    let n: String = text_of(&number_string(gap as u64));
    if ordered {
        joined(&vec!["THEN/", n.as_str()])
    } else {
        joined(&vec!["NEAR/", n.as_str()])
    }
}

// ---------------------------------------------------------------------------
// Words
// ---------------------------------------------------------------------------

/// How many stars a word starts with.
fn lead_stars(w: &Vec<char>) -> (r: usize)
    ensures
        r <= w@.len(),
        no_lead(w@) == w@.subrange(r as int, w@.len() as int),
        r > 0 <==> w@.len() > 0 && w@[0] == '*',
{
    let n: usize = w.len();
    let mut i: usize = 0;
    proof {
        assert(w@.subrange(0, n as int) =~= w@);
    }
    while i < n && w[i] == '*'
        invariant
            n == w@.len(),
            i <= n,
            no_lead(w@) == no_lead(w@.subrange(i as int, n as int)),
            i > 0 ==> w@[0] == '*',
        decreases n - i,
    {
        proof {
            let s = w@.subrange(i as int, n as int);
            assert(s[0] == '*');
            assert(s.subrange(1, s.len() as int) =~= w@.subrange(i + 1, n as int));
        }
        i = i + 1;
    }
    proof {
        let s = w@.subrange(i as int, n as int);
        if i < n {
            assert(s[0] == w@[i as int]);
        }
    }
    i
}

/// Where the stars at the end of `w[from..]` start.
fn trail_stars(w: &Vec<char>, from: usize) -> (r: usize)
    requires
        from <= w@.len(),
    ensures
        from <= r <= w@.len(),
        no_trail(w@.subrange(from as int, w@.len() as int)) == w@.subrange(from as int, r as int),
        r < w@.len() <==> from < w@.len() && w@.last() == '*',
{
    let n: usize = w.len();
    let mut i: usize = n;
    let ghost core = w@.subrange(from as int, n as int);
    while i > from && w[i - 1] == '*'
        invariant
            n == w@.len(),
            from <= i <= n,
            core == w@.subrange(from as int, n as int),
            no_trail(core) == no_trail(w@.subrange(from as int, i as int)),
            i < n ==> w@[n - 1] == '*',
        decreases i,
    {
        proof {
            let s = w@.subrange(from as int, i as int);
            assert(s.last() == '*');
            assert(s.subrange(0, s.len() - 1) =~= w@.subrange(from as int, i - 1));
        }
        i = i - 1;
    }
    proof {
        let s = w@.subrange(from as int, i as int);
        if i > from {
            assert(s.last() == w@[i - 1]);
        }
    }
    i
}

fn slice_vec(w: &Vec<char>, from: usize, to: usize) -> (r: Vec<char>)
    requires
        from <= to <= w@.len(),
    ensures
        r@ == w@.subrange(from as int, to as int),
{
    let s: String = crate::text::string_of(w.as_slice(), from, to);
    chars_of(s.as_str())
}

/// A phrase of the terms, one after the other.
fn terms_phrase(terms: Vec<String>) -> (r: Query)
    requires
        2 <= terms@.len() <= u32::MAX,
    ensures
        r.view() == phrase_of_terms(strings_view(terms@)),
        r.view().valid(),
{
    let ghost tv = strings_view(terms@);
    let mut slots: Vec<Slot> = Vec::new();
    let mut i: usize = 0;
    let ghost want = phrase_of_terms(tv)->slots;
    while i < terms.len()
        invariant
            i <= terms@.len(),
            terms@.len() <= u32::MAX,
            tv == strings_view(terms@),
            want == phrase_of_terms(tv)->slots,
            slots@.len() == i,
            forall|k: int| 0 <= k < i ==> (#[trigger] slots@[k]).view() == want[k],
        decreases terms@.len() - i,
    {
        let mut alts: Vec<Query> = Vec::new();
        alts.push(Query::Term(terms[i].clone()));
        let s: Slot = Slot { offset: i as u32, alts };
        proof {
            lemma_slot_view(s);
            assert(tv[i as int] == terms@[i as int]@);
            assert(query_views(alts@) =~= seq![QueryView::Term(tv[i as int])]);
        }
        slots.push(s);
        i = i + 1;
    }
    let q: Query = Query::Phrase { slots, slop: 0 };
    proof {
        lemma_query_view(q);
        assert(slot_views(slots@) =~= want);
        let offs = slot_offsets(want);
        assert forall|j: int| 0 <= j < offs.len() implies #[trigger] offs[j] == j by {}
        assert(offsets_ok(offs));
        assert forall|i: int, j: int| 0 <= i < want.len() && 0 <= j < want[i].alts.len() implies (#[trigger] want[i].alts[j]).valid() by {
            assert(want[i].alts =~= seq![QueryView::Term(tv[i])]);
        }
        assert((QueryView::Phrase { slots: want, slop: 0 }).valid());
    }
    q
}

/// A plain word (analyzed, possibly into a phrase of terms) or a pattern.
fn word(w: &Vec<char>, analyzer: &mut Analyzer) -> (r: Result<Option<Query>, QueryError>)
    requires
        fits(w@),
    ensures
        result_view(r) == word_query(w@),
        r is Ok ==> valid_opt(r->Ok_0),
        r is Ok && r->Ok_0 is Some && r->Ok_0->0.view() is Phrase ==> {
            let s = r->Ok_0->0.view()->slots;
            &&& 2 <= s.len() <= w@.len()
            &&& forall|i: int| 0 <= i < s.len() ==> (#[trigger] s[i]).offset == i
        },
        r is Ok && r->Ok_0 is Some && !(r->Ok_0->0.view() is Phrase) ==> r->Ok_0->0.view().is_leaf(),
        r is Ok && r->Ok_0 is Some ==> w@.len() >= 1,
{
    let n: usize = w.len();
    let from: usize = lead_stars(w);
    let to: usize = trail_stars(w, from);
    let lead: bool = from > 0;
    let trail: bool = to < n;
    let ghost core0 = w@.subrange(from as int, to as int);
    let (end, fuzz): (usize, u8) = if to >= from + 1 && w[to - 1] == '~' {
        (to - 1, 1)
    } else if to - from >= 2 && w[to - 2] == '~' && (w[to - 1] == '1' || w[to - 1] == '2') {
        (to - 2, if w[to - 1] == '1' { 1 } else { 2 })
    } else {
        (to, 0)
    };
    proof {
        let c = w@.subrange(from as int, n as int);
        if from < n {
            assert(c.last() == w@.last());
        }
        let m = core0.len() as int;
        if m >= 1 {
            assert(core0[m - 1] == w@[to - 1]);
        }
        if m >= 2 {
            assert(core0[m - 2] == w@[to - 2]);
        }
        assert(fuzz_of(core0).0 =~= w@.subrange(from as int, end as int));
        assert(fuzz_of(core0).1 == if fuzz == 0 { None::<int> } else { Some(fuzz as int) });
    }
    if !lead && !trail && fuzz == 0 {
        let mut terms: Vec<String> = analyzer.terms_of_chars(w.as_slice());
        proof {
            assert(strings_view(terms@).len() == terms@.len());
        }
        if terms.len() == 0 {
            return Ok(None);
        }
        if terms.len() == 1 {
            proof {
                assert(strings_view(terms@)[0] == terms@[0]@);
            }
            let t: Option<String> = terms.pop();
            return match t {
                Some(x) => Ok(Some(Query::Term(x))),
                None => Ok(None),
            };
        }
        return Ok(Some(terms_phrase(terms)));
    }
    let core: Vec<char> = slice_vec(w, from, end);
    let mut terms: Vec<String> = analyzer.terms_of_chars(core.as_slice());
    proof {
        assert(strings_view(terms@).len() == terms@.len());
    }
    if terms.len() != 1 || (fuzz != 0 && (lead || trail)) {
        return Err(QueryError::BadPattern(text_of(w)));
    }
    proof {
        assert(strings_view(terms@)[0] == terms@[0]@);
    }
    match terms.pop() {
        Some(t) => if fuzz != 0 {
            Ok(Some(Query::Fuzzy(t, fuzz)))
        } else if lead {
            Ok(Some(Query::Fragment(t)))
        } else {
            Ok(Some(Query::Prefix(t)))
        },
        None => Ok(None),
    }
}

/// The alternatives of a choice.
fn choice(ws: &Vec<Vec<char>>, analyzer: &mut Analyzer) -> (r: Result<Vec<Query>, QueryError>)
    requires
        forall|j: int| 0 <= j < ws@.len() ==> fits((#[trigger] ws@[j])@),
    ensures
        match r {
            Ok(v) => choices(chars_view(ws@), ws@.len() as int) == Ok::<Seq<QueryView>, ErrorView>(query_views(v@)) && all_valid(v@),
            Err(e) => choices(chars_view(ws@), ws@.len() as int) == Err::<Seq<QueryView>, ErrorView>(e.view()),
        },
{
    let ghost cv = chars_view(ws@);
    let mut alts: Vec<Query> = Vec::new();
    let mut i: usize = 0;
    proof {
        assert(query_views(alts@) =~= Seq::empty());
    }
    while i < ws.len()
        invariant
            i <= ws@.len(),
            cv == chars_view(ws@),
            forall|j: int| 0 <= j < ws@.len() ==> fits((#[trigger] ws@[j])@),
            choices(cv, i as int) == Ok::<Seq<QueryView>, ErrorView>(query_views(alts@)),
            all_valid(alts@),
        decreases ws@.len() - i,
    {
        let w: &Vec<char> = &ws[i];
        proof {
            assert(fits(ws@[i as int]@));
            assert(cv[i as int] == w@);
        }
        match word(w, analyzer) {
            Err(e) => {
                proof {
                    lemma_choices_fail(cv, i + 1, cv.len() as int);
                }
                return Err(e);
            },
            Ok(None) => {},
            Ok(Some(q)) => {
                let many: bool = match &q {
                    Query::Phrase { .. } => true,
                    _ => false,
                };
                if many {
                    let t: String = text_of(w);
                    let quoted_text: String = quoted(t.as_str());
                    proof {
                        lemma_choices_fail(cv, i + 1, cv.len() as int);
                    }
                    return Err(QueryError::Syntax(joined(&vec![quoted_text.as_str(), ": a [ ] choice in a phrase must be one word"])));
                }
                let ghost was = alts@;
                alts.push(q);
                proof {
                    lemma_views_push(was, q);
                }
            },
        }
        i = i + 1;
    }
    Ok(alts)
}

proof fn lemma_choices_fail(ws: Seq<Seq<char>>, n: int, m: int)
    requires
        0 < n <= m <= ws.len(),
        choices(ws, n) is Err,
    ensures
        choices(ws, m) == choices(ws, n),
    decreases m - n,
{
    if n < m {
        lemma_choices_fail(ws, n, m - 1);
    }
}

proof fn lemma_slots_fail(items: Seq<ItemView>, n: int, m: int)
    requires
        0 < n <= m <= items.len(),
        slots_of(items, n) is Err,
    ensures
        slots_of(items, m) == slots_of(items, n),
    decreases m - n,
{
    if n < m {
        lemma_slots_fail(items, n, m - 1);
    }
}

/// Offsets ascend, below `next`, and every alternative is valid.
spec fn slots_good(s: Seq<SlotView>, next: int) -> bool {
    &&& forall|i: int| 0 <= i < s.len() ==> 0 <= (#[trigger] s[i]).offset < next
    &&& forall|i: int| 0 < i < s.len() ==> s[i - 1].offset <= (#[trigger] s[i]).offset
    &&& forall|i: int, j: int| 0 <= i < s.len() && 0 <= j < s[i].alts.len() ==> (#[trigger] s[i].alts[j]).valid()
    &&& forall|i: int| 0 <= i < s.len() ==> (#[trigger] s[i]).alts.len() >= 1
}

proof fn lemma_slots_push(s: Seq<SlotView>, next: int, x: SlotView, next2: int)
    requires
        slots_good(s, next),
        0 <= next <= x.offset < next2,
        x.alts.len() >= 1,
        forall|j: int| 0 <= j < x.alts.len() ==> (#[trigger] x.alts[j]).valid(),
    ensures
        slots_good(s.push(x), next2),
{
    let t = s.push(x);
    assert forall|i: int, j: int| 0 <= i < t.len() && 0 <= j < t[i].alts.len() implies (#[trigger] t[i].alts[j]).valid() by {
        if i < s.len() {
            assert(s[i].alts[j].valid());
        }
    }
    assert forall|i: int| 0 <= i < t.len() implies 0 <= (#[trigger] t[i]).offset < next2 by {
        if i < s.len() {
            assert(s[i].offset < next);
        }
    }
    assert forall|i: int| 0 < i < t.len() implies t[i - 1].offset <= (#[trigger] t[i]).offset by {
        if i < s.len() {
            assert(s[i - 1].offset <= s[i].offset);
        } else {
            assert(s[i - 1].offset < next);
        }
    }
    assert forall|i: int| 0 <= i < t.len() implies (#[trigger] t[i]).alts.len() >= 1 by {
        if i < s.len() {
            assert(s[i].alts.len() >= 1);
        }
    }
}

/// Add the slots of a word that is several terms, from `offset` on.
fn push_moved(slots: &mut Vec<Slot>, inner: Vec<Slot>, offset: u32)
    requires
        slots_good(slot_views(old(slots)@), offset as int),
        slots_good(slot_views(inner@), inner@.len() as int),
        forall|i: int| 0 <= i < inner@.len() ==> (#[trigger] slot_views(inner@)[i]).offset == i,
        offset + inner@.len() <= u32::MAX,
    ensures
        slot_views(final(slots)@) == slot_views(old(slots)@) + moved(slot_views(inner@), offset as int),
        slots_good(slot_views(final(slots)@), offset + inner@.len()),
{
    let ghost iv = slot_views(inner@);
    let ghost mv = moved(iv, offset as int);
    let ghost base = slot_views(slots@);
    let mut rest: Vec<Slot> = inner;
    let ghost mut done: int = 0;
    proof {
        assert(base + mv.take(0) =~= base);
    }
    while rest.len() > 0
        invariant
            0 <= done,
            done + rest@.len() == iv.len(),
            forall|k: int| 0 <= k < rest@.len() ==> (#[trigger] rest@[k]).view() == iv[done + k],
            mv == moved(iv, offset as int),
            slots_good(iv, iv.len() as int),
            forall|i: int| 0 <= i < iv.len() ==> (#[trigger] iv[i]).offset == i,
            offset + iv.len() <= u32::MAX,
            slot_views(slots@) == base + mv.take(done),
            slots_good(slot_views(slots@), offset + done),
        decreases rest@.len(),
    {
        let ghost before = rest@;
        let s: Slot = rest.remove(0);
        proof {
            assert(before[0].view() == iv[done]);
            assert(iv[done].offset == done);
            lemma_slot_view(s);
        }
        let x: Slot = Slot { offset: offset + s.offset, alts: s.alts };
        let ghost was = slots@;
        slots.push(x);
        proof {
            lemma_slot_view(x);
            assert(mv[done] == x.view());
            assert(slot_views(slots@) =~= slot_views(was).push(x.view()));
            assert(mv.take(done + 1) =~= mv.take(done).push(mv[done]));
            assert(base + mv.take(done + 1) =~= (base + mv.take(done)).push(mv[done]));
            assert(iv[done].alts.len() >= 1);
            assert forall|j: int| 0 <= j < x.view().alts.len() implies (#[trigger] x.view().alts[j]).valid() by {
                assert(iv[done].alts[j].valid());
            }
            lemma_slots_push(slot_views(was), offset + done, x.view(), offset + done + 1);
            assert forall|k: int| 0 <= k < rest@.len() implies (#[trigger] rest@[k]).view() == iv[done + 1 + k] by {
                assert(rest@[k] == before[k + 1]);
            }
            done = done + 1;
        }
    }
    proof {
        assert(mv.take(done) =~= mv);
    }
}

/// Add one slot.
fn add_slot(slots: &mut Vec<Slot>, offset: u32, alts: Vec<Query>)
    requires
        slots_good(slot_views(old(slots)@), offset as int),
        all_valid(alts@),
        alts@.len() >= 1,
        offset < u32::MAX,
    ensures
        slot_views(final(slots)@) == slot_views(old(slots)@).push(SlotView { offset: offset as int, alts: query_views(alts@) }),
        slots_good(slot_views(final(slots)@), offset + 1),
{
    let s: Slot = Slot { offset, alts };
    let ghost was = slots@;
    slots.push(s);
    proof {
        lemma_slot_view(s);
        assert(slot_views(slots@) =~= slot_views(was).push(s.view()));
        lemma_slots_push(slot_views(was), offset as int, s.view(), offset + 1);
    }
}

/// Add the slots of one item from `offset` on; the offset of the next.
fn add_item(item: &PhraseItem, slots: &mut Vec<Slot>, offset: u32, analyzer: &mut Analyzer, Ghost(max): Ghost<int>) -> (r: Result<u32, QueryError>)
    requires
        slots_good(slot_views(old(slots)@), offset as int),
        0 <= max * 4 <= u32::MAX,
        offset + item_len(item.view()) <= max,
        item.view() is Alts ==> forall|j: int| 0 <= j < item.view()->Alts_0.len() ==> (#[trigger] item.view()->Alts_0[j]).len() <= max,
    ensures
        match r {
            Ok(next) => {
                &&& slots_with(item.view(), slot_views(old(slots)@), offset as int) == Ok::<(Seq<SlotView>, int), ErrorView>((slot_views(final(slots)@), next as int))
                &&& slots_good(slot_views(final(slots)@), next as int)
                &&& next <= offset + item_len(item.view())
            },
            Err(e) => slots_with(item.view(), slot_views(old(slots)@), offset as int) == Err::<(Seq<SlotView>, int), ErrorView>(e.view()),
        },
{
    match item {
        PhraseItem::Gap => {
            // Leading gaps are ignored, trailing ones dropped.
            if slots.len() > 0 {
                let ghost sv = slot_views(slots@);
                proof {
                    assert forall|k: int| 0 <= k < sv.len() implies 0 <= (#[trigger] sv[k]).offset < offset + 1 by {
                        assert(sv[k].offset < offset);
                    }
                }
                Ok(offset + 1)
            } else {
                Ok(offset)
            }
        },
        PhraseItem::Word(w) => match word(w, analyzer) {
            Err(e) => Err(e),
            Ok(None) => Ok(offset),
            Ok(Some(q)) => {
                proof {
                    lemma_query_view(q);
                }
                match q {
                    Query::Phrase { slots: inner, slop: _ } => {
                        let ghost inv = slot_views(inner@);
                        proof {
                            assert(q.view()->slots == inv);
                            lemma_word_slots(w@, inv);
                            assert(inv.last().offset == inv.len() - 1);
                        }
                        let count: u32 = inner.len() as u32;
                        push_moved(slots, inner, offset);
                        Ok(offset + count)
                    },
                    leaf => {
                        let mut alts: Vec<Query> = Vec::new();
                        let ghost lv = leaf.view();
                        alts.push(leaf);
                        proof {
                            assert(query_views(alts@) =~= seq![lv]);
                        }
                        add_slot(slots, offset, alts);
                        Ok(offset + 1)
                    },
                }
            },
        },
        PhraseItem::Alts(ws) => {
            proof {
                assert forall|j: int| 0 <= j < ws@.len() implies fits((#[trigger] ws@[j])@) by {
                    assert(item.view()->Alts_0[j].len() <= max);
                }
            }
            match choice(ws, analyzer) {
                Err(e) => Err(e),
                Ok(alts) => if alts.len() > 0 {
                    add_slot(slots, offset, alts);
                    Ok(offset + 1)
                } else {
                    Ok(offset)
                },
            }
        },
    }
}

/// The query of a phrase.
fn phrase(items: &Vec<PhraseItem>, slop: u32, analyzer: &mut Analyzer, Ghost(max): Ghost<int>) -> (r: Result<Option<Query>, QueryError>)
    requires
        items_len(item_views(items@), items@.len() as int) <= max,
        alts_fit(item_views(items@), max),
        0 <= max * 4 <= u32::MAX,
    ensures
        result_view(r) == phrase_query(item_views(items@), slop as int),
        r is Ok ==> valid_opt(r->Ok_0),
{
    let ghost iv = item_views(items@);
    let n: usize = items.len();
    let mut slots: Vec<Slot> = Vec::new();
    let mut offset: u32 = 0;
    let mut i: usize = 0;
    proof {
        assert(slot_views(slots@) =~= Seq::empty());
    }
    while i < n
        invariant
            n == items@.len(),
            i <= n,
            iv == item_views(items@),
            items_len(iv, n as int) <= max,
            alts_fit(iv, max),
            0 <= max * 4 <= u32::MAX,
            slots_of(iv, i as int) == Ok::<(Seq<SlotView>, int), ErrorView>((slot_views(slots@), offset as int)),
            slots_good(slot_views(slots@), offset as int),
            offset <= items_len(iv, i as int),
        decreases n - i,
    {
        proof {
            assert(iv[i as int] == items@[i as int].view());
            lemma_items_grow(iv, i + 1, n as int);
            lemma_items_grow(iv, i as int, i as int);
            if iv[i as int] is Alts {
                assert forall|j: int| 0 <= j < iv[i as int]->Alts_0.len() implies (#[trigger] iv[i as int]->Alts_0[j]).len() <= max by {}
            }
        }
        match add_item(&items[i], &mut slots, offset, analyzer, Ghost(max)) {
            Ok(next) => {
                offset = next;
            },
            Err(e) => {
                proof {
                    lemma_slots_fail(iv, i + 1, n as int);
                }
                return Err(e);
            },
        }
        i = i + 1;
    }
    let ghost sv = slot_views(slots@);
    if slots.len() == 0 {
        return Ok(None);
    }
    if slots.len() == 1 {
        proof {
            assert(sv[0] == slots@[0].view());
            lemma_slot_view(slots@[0]);
            assert(sv[0].alts.len() >= 1);
        }
        return match slots.pop() {
            Some(s) => {
                let ghost av = query_views(s.alts@);
                let mut alts: Vec<Query> = s.alts;
                proof {
                    assert forall|j: int| 0 <= j < av.len() implies (#[trigger] av[j]).valid() by {
                        assert(sv[0].alts[j].valid());
                    }
                }
                if alts.len() == 1 {
                    proof {
                        assert(av[0] == alts@[0].view());
                        assert(av[0].valid());
                    }
                    Ok(alts.pop())
                } else {
                    let q: Query = Query::Or(alts);
                    proof {
                        lemma_query_view(q);
                        lemma_parts(av);
                    }
                    Ok(Some(q))
                }
            },
            None => Ok(None),
        };
    }
    let q: Query = Query::Phrase { slots, slop };
    proof {
        lemma_query_view(q);
        let offs = slot_offsets(sv);
        assert forall|j: int| 0 <= j < offs.len() implies 0 <= #[trigger] offs[j] <= u32::MAX by {
            assert(sv[j].offset < offset);
        }
        assert forall|j: int| 0 < j < offs.len() implies offs[j - 1] <= #[trigger] offs[j] by {
            assert(sv[j - 1].offset <= sv[j].offset);
        }
        assert(q.view().valid());
    }
    Ok(Some(q))
}

/// The slots of a word that is several terms.
proof fn lemma_word_slots(w: Seq<char>, s: Seq<SlotView>)
    requires
        word_query(w) is Ok,
        word_query(w)->Ok_0 is Some,
        word_query(w)->Ok_0->0 is Phrase,
        s == word_query(w)->Ok_0->0->slots,
    ensures
        slots_good(s, s.len() as int),
        s.len() >= 2,
        forall|i: int| 0 <= i < s.len() ==> (#[trigger] s[i]).offset == i,
{
    let terms = terms_of(w);
    assert(word_query(w)->Ok_0->0 == phrase_of_terms(terms));
    assert forall|i: int, j: int| 0 <= i < s.len() && 0 <= j < s[i].alts.len() implies (#[trigger] s[i].alts[j]).valid() by {
        assert(s[i].alts =~= seq![QueryView::Term(terms[i])]);
    }
}

proof fn lemma_items_grow(items: Seq<ItemView>, a: int, b: int)
    requires
        0 <= a <= b,
    ensures
        0 <= items_len(items, a) <= items_len(items, b),
    decreases b,
{
    if b > 0 {
        lemma_items_grow(items, if a < b { a } else { a - 1 }, b - 1);
    }
}

// ---------------------------------------------------------------------------
// Expressions
// ---------------------------------------------------------------------------

/// The tokens as they read.
spec fn toks_ok(t: &Vec<Tok>, max: int) -> bool {
    toks_fit(tok_views(t@), max) && t@.len() <= max && 0 <= max * 4 <= u32::MAX
}

fn is_or(t: &Vec<Tok>, pos: usize) -> (r: bool)
    ensures
        r == (pos < t@.len() && tok_views(t@)[pos as int] is Or),
{
    pos < t.len() && match &t[pos] {
        Tok::Or => true,
        _ => false,
    }
}

fn is_and(t: &Vec<Tok>, pos: usize) -> (r: bool)
    ensures
        r == (pos < t@.len() && tok_views(t@)[pos as int] is And),
{
    pos < t.len() && match &t[pos] {
        Tok::And => true,
        _ => false,
    }
}

fn is_neg(t: &Vec<Tok>, pos: usize) -> (r: bool)
    ensures
        r == (pos < t@.len() && tok_views(t@)[pos as int] is Neg),
{
    pos < t.len() && match &t[pos] {
        Tok::Neg => true,
        _ => false,
    }
}

fn is_rparen(t: &Vec<Tok>, pos: usize) -> (r: bool)
    ensures
        r == (pos < t@.len() && tok_views(t@)[pos as int] is RParen),
{
    pos < t.len() && match &t[pos] {
        Tok::RParen => true,
        _ => false,
    }
}

fn is_rbracket(t: &Vec<Tok>, pos: usize) -> (r: bool)
    ensures
        r == (pos < t@.len() && tok_views(t@)[pos as int] is RBracket),
{
    pos < t.len() && match &t[pos] {
        Tok::RBracket => true,
        _ => false,
    }
}

fn is_lbracket(t: &Vec<Tok>, pos: usize) -> (r: bool)
    ensures
        r == (pos < t@.len() && tok_views(t@)[pos as int] is LBracket),
{
    pos < t.len() && match &t[pos] {
        Tok::LBracket => true,
        _ => false,
    }
}

/// The distance and order of the proximity operator at `pos`.
fn near_at(t: &Vec<Tok>, pos: usize) -> (r: Option<(u32, bool)>)
    ensures
        match r {
            Some((gap, ordered)) => pos < t@.len() && tok_views(t@)[pos as int] == TokView::Near(gap as int, ordered),
            None => !(pos < t@.len() && tok_views(t@)[pos as int] is Near),
        },
{
    if pos < t.len() {
        match &t[pos] {
            Tok::Near(gap, ordered) => Some((*gap, *ordered)),
            _ => None,
        }
    } else {
        None
    }
}

fn ends(t: &Vec<Tok>, pos: usize) -> (r: bool)
    ensures
        r == ends_and(tok_views(t@), pos as int),
{
    pos >= t.len() || is_rparen(t, pos) || is_rbracket(t, pos) || is_or(t, pos)
}

fn or_expr(t: &Vec<Tok>, start: usize, analyzer: &mut Analyzer, Ghost(max): Ghost<int>) -> (r: (Result<Option<Query>, QueryError>, usize))
    requires
        toks_ok(t, max),
        start <= t@.len(),
    ensures
        reads(r, or_from(tok_views(t@), start as int, Seq::empty()), tok_views(t@), start as int),
    decreases t@.len() - start, 5nat,
{
    let ghost tv = tok_views(t@);
    let ghost whole = or_from(tv, start as int, Seq::empty());
    let mut parts: Vec<Query> = Vec::new();
    let mut pos: usize = start;
    proof {
        assert(query_views(parts@) =~= Seq::empty());
    }
    loop
        invariant
            toks_ok(t, max),
            tv == tok_views(t@),
            start <= pos <= t@.len(),
            whole == or_from(tv, start as int, Seq::empty()),
            whole == or_from(tv, pos as int, query_views(parts@)),
            all_valid(parts@),
        decreases t@.len() - pos,
    {
        let (q, p): (Result<Option<Query>, QueryError>, usize) = and_expr(t, pos, analyzer, Ghost(max));
        match q {
            Err(e) => {
                return (Err(e), p);
            },
            Ok(q) => {
                add_part(&mut parts, q);
            },
        }
        if !is_or(t, p) {
            return (Ok(collapse_or(parts)), p);
        }
        pos = p + 1;
    }
}

fn and_expr(t: &Vec<Tok>, start: usize, analyzer: &mut Analyzer, Ghost(max): Ghost<int>) -> (r: (Result<Option<Query>, QueryError>, usize))
    requires
        toks_ok(t, max),
        start <= t@.len(),
    ensures
        reads(r, and_from(tok_views(t@), start as int, Seq::empty()), tok_views(t@), start as int),
    decreases t@.len() - start, 4nat,
{
    let ghost tv = tok_views(t@);
    let ghost whole = and_from(tv, start as int, Seq::empty());
    let mut parts: Vec<Query> = Vec::new();
    let mut pos: usize = start;
    proof {
        assert(query_views(parts@) =~= Seq::empty());
    }
    loop
        invariant
            toks_ok(t, max),
            tv == tok_views(t@),
            start <= pos <= t@.len(),
            whole == and_from(tv, start as int, Seq::empty()),
            whole == and_from(tv, pos as int, query_views(parts@)),
            all_valid(parts@),
        decreases t@.len() - pos,
    {
        if ends(t, pos) {
            return (Ok(collapse_and(parts)), pos);
        }
        if is_and(t, pos) {
            pos = pos + 1;
        } else if is_neg(t, pos) {
            if ends(t, pos + 1) || is_and(t, pos + 1) {
                // A stray `-` / `NOT` with nothing to negate is ignored.
                pos = pos + 1;
            } else {
                let (q, p): (Result<Option<Query>, QueryError>, usize) = near_expr(t, pos + 1, analyzer, Ghost(max));
                match q {
                    Err(e) => {
                        return (Err(e), p);
                    },
                    Ok(q) => {
                        let n: Option<Query> = match q {
                            Some(x) => Some(Query::Not(Box::new(x))),
                            None => None,
                        };
                        proof {
                            if n is Some {
                                assert(n->0.view() == QueryView::Not(Box::new(q->0.view())));
                                assert(n->0.view().valid());
                            }
                        }
                        add_part(&mut parts, n);
                    },
                }
                pos = p;
            }
        } else {
            let (q, p): (Result<Option<Query>, QueryError>, usize) = near_expr(t, pos, analyzer, Ghost(max));
            match q {
                Err(e) => {
                    return (Err(e), p);
                },
                Ok(q) => {
                    add_part(&mut parts, q);
                },
            }
            pos = p;
        }
    }
}

/// Items joined by `THEN/N` / `NEAR/N`, left to right.
fn near_expr(t: &Vec<Tok>, start: usize, analyzer: &mut Analyzer, Ghost(max): Ghost<int>) -> (r: (Result<Option<Query>, QueryError>, usize))
    requires
        toks_ok(t, max),
        start < t@.len(),
    ensures
        reads(r, near_from(tok_views(t@), start as int), tok_views(t@), start as int),
        r.0 is Ok ==> r.1 > start,
    decreases t@.len() - start, 3nat,
{
    let ghost tv = tok_views(t@);
    let ghost whole = near_from(tv, start as int);
    let (q, p): (Result<Option<Query>, QueryError>, usize) = boosted(t, start, analyzer, Ghost(max));
    let mut left: Option<Query> = match q {
        Err(e) => {
            return (Err(e), p);
        },
        Ok(q) => q,
    };
    let mut pos: usize = p;
    loop
        invariant
            toks_ok(t, max),
            tv == tok_views(t@),
            start < pos <= t@.len(),
            whole == near_from(tv, start as int),
            whole == near_rest(tv, pos as int, opt_view(left)),
            valid_opt(left),
        decreases t@.len() - pos,
    {
        let (gap, ordered): (u32, bool) = match near_at(t, pos) {
            None => {
                return (Ok(left), pos);
            },
            Some(x) => x,
        };
        let other: bool = match near_at(t, pos + 1) {
            Some(_) => true,
            None => false,
        };
        if ends(t, pos + 1) || is_and(t, pos + 1) || other {
            let op: String = op_string(ordered, gap);
            return (Err(QueryError::Syntax(joined(&vec![op.as_str(), " needs an item on its right"]))), pos);
        }
        let (q2, p2): (Result<Option<Query>, QueryError>, usize) = boosted(t, pos + 1, analyzer, Ghost(max));
        let right: Option<Query> = match q2 {
            Err(e) => {
                return (Err(e), p2);
            },
            Ok(q) => q,
        };
        match (left, right) {
            (Some(l), Some(r)) => {
                let ghost (lv, rv) = (l.view(), r.view());
                let n: Query = Query::Near { left: Box::new(l), right: Box::new(r), gap, ordered };
                proof {
                    assert(n.view() == (QueryView::Near { left: Box::new(lv), right: Box::new(rv), gap: gap as int, ordered }));
                    assert(n.view().valid());
                }
                left = Some(n);
            },
            _ => {
                let op: String = op_string(ordered, gap);
                return (Err(QueryError::Syntax(joined(&vec!["both sides of ", op.as_str(), " need a searchable term"]))), pos);
            },
        }
        pos = p2;
    }
}

fn boosted(t: &Vec<Tok>, start: usize, analyzer: &mut Analyzer, Ghost(max): Ghost<int>) -> (r: (Result<Option<Query>, QueryError>, usize))
    requires
        toks_ok(t, max),
        start < t@.len(),
    ensures
        reads(r, boosted_from(tok_views(t@), start as int), tok_views(t@), start as int),
        r.0 is Ok ==> r.1 > start,
    decreases t@.len() - start, 2nat,
{
    let (q, p): (Result<Option<Query>, QueryError>, usize) = primary(t, start, analyzer, Ghost(max));
    match q {
        Err(e) => (Err(e), p),
        Ok(q) => {
            if p < t.len() {
                match &t[p] {
                    Tok::Boost(n) => {
                        let r: Option<Query> = match q {
                            Some(x) => Some(Query::Boost(Box::new(x), Weight { text: text_of(n) })),
                            None => None,
                        };
                        proof {
                            if r is Some {
                                assert(r->0.view() == QueryView::Boost(Box::new(q->0.view()), n@));
                                assert(r->0.view().valid());
                            }
                        }
                        return (Ok(r), p + 1);
                    },
                    _ => {},
                }
            }
            (Ok(q), p)
        },
    }
}

fn is_all(w: &Vec<char>) -> (r: bool)
    ensures
        r == (w@ =~= seq!['A', 'L', 'L']),
{
    w.len() == 3 && w[0] == 'A' && w[1] == 'L' && w[2] == 'L'
}

fn is_at(w: &Vec<char>) -> (r: bool)
    ensures
        r == (w@ =~= seq!['A', 'T']),
{
    w.len() == 2 && w[0] == 'A' && w[1] == 'T'
}

fn of_at(t: &Vec<Tok>, pos: usize) -> (r: bool)
    ensures
        r == word_at(tok_views(t@), pos as int, seq!['O', 'F']),
{
    pos < t.len() && match &t[pos] {
        Tok::Word(w) => w.len() == 2 && w[0] == 'O' && w[1] == 'F',
        _ => false,
    }
}

fn least_at(t: &Vec<Tok>, pos: usize) -> (r: bool)
    ensures
        r == word_at(tok_views(t@), pos as int, seq!['L', 'E', 'A', 'S', 'T']),
{
    pos < t.len() && match &t[pos] {
        Tok::Word(w) => w.len() == 5 && w[0] == 'L' && w[1] == 'E' && w[2] == 'A' && w[3] == 'S' && w[4] == 'T',
        _ => false,
    }
}

/// How many items `AT LEAST n` / `AT LEAST p%` asks for.
fn minimum(n: &Vec<char>, len: u32) -> (r: Result<u64, QueryError>)
    requires
        fits(n@),
    ensures
        match r {
            Ok(v) => threshold(n@, len as int) == Ok::<int, ErrorView>(v as int),
            Err(e) => threshold(n@, len as int) == Err::<int, ErrorView>(e.view()),
        },
{
    let k: usize = n.len();
    if k > 0 && n[k - 1] == '%' {
        let p: Vec<char> = slice_vec(n, 0, k - 1);
        let ghost d = decimal_of(p@);
        match parse_decimal(p.as_slice()) {
            Some(v) => {
                if v.upto_power(2, Ghost(d->0)) {
                    return Ok(v.percent_of(len, Ghost(d->0)));
                }
            },
            None => {},
        }
        let t: String = text_of(n);
        return Err(QueryError::Syntax(joined(&vec!["AT LEAST ", t.as_str(), " OF: a percentage from 0% to 100%"])));
    }
    match parse_whole(n.as_slice(), u64::MAX) {
        Some(v) => Ok(v),
        None => {
            let t: String = text_of(n);
            Err(QueryError::Syntax(joined(&vec!["AT LEAST ", t.as_str(), " OF: not a number"])))
        },
    }
}

/// At least `min` of the items.
fn at_least_of(min: u64, items: Vec<Query>) -> (r: Result<Option<Query>, QueryError>)
    requires
        all_valid(items@),
    ensures
        result_view(r) == at_least(min as int, query_views(items@)),
        r is Ok ==> valid_opt(r->Ok_0),
{
    if min == 0 {
        return Err(QueryError::Syntax("AT LEAST 0 OF matches everything; use a positive count".to_owned()));
    }
    if min == 1 {
        return Ok(collapse_or(items));
    }
    if min >= items.len() as u64 {
        return Ok(collapse_and(items));
    }
    let q: Query = Query::AtLeast { min: min as usize, of: items };
    proof {
        lemma_query_view(q);
        assert(q.view()->of == query_views(items@));
        assert forall|i: int| 0 <= i < q.view()->of.len() implies (#[trigger] q.view()->of[i]).valid() by {
            assert(query_views(items@)[i].valid());
        }
        assert(q.view().valid());
    }
    Ok(Some(q))
}

fn primary(t: &Vec<Tok>, start: usize, analyzer: &mut Analyzer, Ghost(max): Ghost<int>) -> (r: (Result<Option<Query>, QueryError>, usize))
    requires
        toks_ok(t, max),
        start < t@.len(),
    ensures
        reads(r, primary_from(tok_views(t@), start as int), tok_views(t@), start as int),
        r.0 is Ok ==> r.1 > start,
    decreases t@.len() - start, 1nat,
{
    let ghost tv = tok_views(t@);
    let n: usize = t.len();
    proof {
        assert(tv[start as int] == t@[start as int].view());
        assert(tok_fits(tv[start as int], max));
    }
    match &t[start] {
        Tok::LParen => {
            let (q, p): (Result<Option<Query>, QueryError>, usize) = or_expr(t, start + 1, analyzer, Ghost(max));
            match q {
                Err(e) => (Err(e), p),
                Ok(q) => if is_rparen(t, p) {
                    (Ok(q), p + 1)
                } else {
                    (Err(QueryError::UnbalancedParens), p)
                },
            }
        },
        Tok::LBracket => {
            let (items, p): (Result<Vec<Query>, QueryError>, usize) = list(t, start + 1, analyzer, Ghost(max));
            match items {
                Err(e) => (Err(e), p),
                Ok(v) => (Ok(collapse_or(v)), p),
            }
        },
        Tok::Phrase(items, slop) => (phrase(items, *slop, analyzer, Ghost(max)), start + 1),
        Tok::Word(w) => {
            if is_all(w) && of_at(t, start + 1) {
                if !is_lbracket(t, start + 2) {
                    return (Err(QueryError::Syntax("ALL OF needs a [list]".to_owned())), start);
                }
                let (items, p): (Result<Vec<Query>, QueryError>, usize) = list(t, start + 3, analyzer, Ghost(max));
                return match items {
                    Err(e) => (Err(e), p),
                    Ok(v) => (Ok(collapse_and(v)), p),
                };
            }
            if is_at(w) && least_at(t, start + 1) && start + 3 < n && of_at(t, start + 3) {
                match &t[start + 2] {
                    Tok::Word(count) => {
                        proof {
                            assert(tv[start + 2] == TokView::Word(count@));
                            assert(tok_fits(tv[start + 2], max));
                        }
                        if start + 4 >= n || !is_lbracket(t, start + 4) {
                            return (Err(QueryError::Syntax("AT LEAST n OF needs a [list]".to_owned())), start);
                        }
                        let (items, p): (Result<Vec<Query>, QueryError>, usize) = list(t, start + 5, analyzer, Ghost(max));
                        return match items {
                            Err(e) => (Err(e), p),
                            Ok(v) => if v.len() as u64 > u32::MAX as u64 {
                                proof {
                                    assert(false);
                                }
                                (Err(QueryError::Empty), p)
                            } else {
                                match minimum(count, v.len() as u32) {
                                    Err(e) => (Err(e), p),
                                    Ok(min) => (at_least_of(min, v), p),
                                }
                            },
                        };
                    },
                    _ => {},
                }
            }
            (word(w, analyzer), start + 1)
        },
        Tok::RParen => (Err(QueryError::UnbalancedParens), start),
        Tok::RBracket => (Err(QueryError::UnbalancedParens), start),
        Tok::Near(gap, ordered) => {
            let op: String = op_string(*ordered, *gap);
            (Err(QueryError::Syntax(joined(&vec![op.as_str(), " needs an item on its left"]))), start)
        },
        Tok::Boost(_) => (Err(QueryError::Syntax("^ must follow an item with no space: beer^2".to_owned())), start),
        _ => (Err(QueryError::Syntax("- / NOT must stand before an item".to_owned())), start),
    }
}

/// The items of a `[list]`, after its `[`.
fn list(t: &Vec<Tok>, start: usize, analyzer: &mut Analyzer, Ghost(max): Ghost<int>) -> (r: (Result<Vec<Query>, QueryError>, usize))
    requires
        toks_ok(t, max),
        start <= t@.len(),
    ensures
        match r.0 {
            Ok(v) => {
                &&& list_from(tok_views(t@), start as int, Seq::empty(), false) == (Ok::<Seq<QueryView>, ErrorView>(query_views(v@)), r.1 as int)
                &&& start < r.1 <= t@.len()
                &&& all_valid(v@)
                &&& v@.len() <= t@.len()
            },
            Err(e) => list_from(tok_views(t@), start as int, Seq::empty(), false).0 == Err::<Seq<QueryView>, ErrorView>(e.view()),
        },
    decreases t@.len() - start, 4nat,
{
    let ghost tv = tok_views(t@);
    let ghost whole = list_from(tv, start as int, Seq::empty(), false);
    let mut items: Vec<Query> = Vec::new();
    let mut any: bool = false;
    let mut pos: usize = start;
    proof {
        assert(query_views(items@) =~= Seq::empty());
    }
    loop
        invariant
            toks_ok(t, max),
            tv == tok_views(t@),
            start <= pos <= t@.len(),
            whole == list_from(tv, start as int, Seq::empty(), false),
            whole == list_from(tv, pos as int, query_views(items@), any),
            all_valid(items@),
            items@.len() <= pos,
        decreases t@.len() - pos,
    {
        if pos >= t.len() {
            return (Err(QueryError::UnbalancedParens), pos);
        }
        if is_rbracket(t, pos) {
            if !any {
                return (Err(QueryError::Syntax("empty [ ]".to_owned())), pos);
            }
            return (Ok(items), pos + 1);
        }
        if is_and(t, pos) || is_or(t, pos) || is_neg(t, pos) {
            return (Err(QueryError::Syntax("AND / OR / NOT inside [ ] need parentheses: [a (b OR c)]".to_owned())), pos);
        }
        any = true;
        let (q, p): (Result<Option<Query>, QueryError>, usize) = near_expr(t, pos, analyzer, Ghost(max));
        match q {
            Err(e) => {
                return (Err(e), p);
            },
            Ok(q) => {
                proof {
                    assert(query_views(items@).len() == items@.len());
                }
                add_part(&mut items, q);
                proof {
                    assert(query_views(items@).len() == items@.len());
                }
            },
        }
        pos = p;
    }
}

impl Query {
    /// The query that `input` writes.
    pub fn parse(input: &str, analyzer: &mut Analyzer) -> (r: Result<Query, QueryError>)
        requires
            fits(input@),
        ensures
            match r {
                Ok(q) => query_of(input@) == Ok::<QueryView, ErrorView>(q.view()) && q.view().valid(),
                Err(e) => query_of(input@) == Err::<QueryView, ErrorView>(e.view()),
            },
    {
        let cs: Vec<char> = chars_of(input);
        let toks: Vec<Tok> = match lex(&cs) {
            Ok(t) => t,
            Err(e) => {
                return Err(e);
            },
        };
        let ghost max = cs@.len() as int;
        let (q, p): (Result<Option<Query>, QueryError>, usize) = or_expr(&toks, 0, analyzer, Ghost(max));
        let q: Option<Query> = match q {
            Ok(q) => q,
            Err(e) => {
                return Err(e);
            },
        };
        if p != toks.len() {
            return Err(QueryError::UnbalancedParens);
        }
        match q {
            None => Err(QueryError::Empty),
            Some(q) => {
                // Rejects what no index plan can answer (a negation alone).
                match Plan::from_query(&q) {
                    Ok(_) => Ok(q),
                    Err(e) => Err(e),
                }
            },
        }
    }
}

impl Plan {
    /// The index plan of the query that `input` writes.
    pub fn parse(input: &str, analyzer: &mut Analyzer) -> (r: Result<Plan, QueryError>)
        requires
            fits(input@),
        ensures
            match r {
                Ok(p) => query_of(input@) is Ok && plan_of(query_of(input@)->Ok_0) == Some(p.view()) && runnable(p.view()),
                Err(e) => query_of(input@) == Err::<QueryView, ErrorView>(e.view()),
            },
    {
        match Query::parse(input, analyzer) {
            Ok(q) => Plan::from_query(&q),
            Err(e) => Err(e),
        }
    }
}

} // verus!
