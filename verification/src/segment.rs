//! Segments: self-contained inverted indexes over a contiguous range of heap
//! blocks.
//!
//! A segment is a term dictionary (an FST mapping term -> dictionary value)
//! plus a postings area. Because postings are keyed by tid, a segment that
//! covers blocks `[first_block, end_block)` only ever contains tids in that
//! range, so segments built in parallel over disjoint block ranges can be
//! queried back-to-back and yield results in heap order.

use vstd::prelude::*;
use vstd::utf8::encode_utf8;
use crate::combine::{cost_sum, fresh, in_all, in_any, lemma_node, And, AndNot, Bits, Empty, Node, Or};
use crate::cursor::Cursor;
use crate::dict::{
    bytes_less, comes_before, dict_as_bytes, dict_build, dict_bytes, dict_contents, dict_entries, dict_error_text, dict_get,
    dict_open, dict_range, holds_entries, key_term, keys_ascend, lemma_bytes_less_trans, lemma_bytes_total, lemma_encode_injective, lemma_prefix_range,
};
use crate::drive;
use crate::drive::{alive, is_listing, live_tids};
use crate::le::{get_le, le_limit, le_seq, le_val, lemma_le_at, lemma_le_back, lemma_le_embeds, lemma_le_limits, lemma_le_seq_len, put_le};
use crate::leaf::bits_countable;
use crate::plan::{accepts_term, lemma_plan_parts, lemma_plan_view, may_accept, plan_accepts, plan_matches, plan_views, some_accepted, Plan, PlanView};
use crate::grammar::number_text;
use crate::lexer::{joined, text_of};
use crate::parser::number_string;
use crate::pattern::{
    gram_at, grams, grams_of, inner_grams, is_gram, is_gram_key, lemma_gram_key, lemma_trigram_exact, lemma_wide_is_gram, lemma_wide_of_part,
    wide_gram_at, wide_grams, wide_grams_of, GRAM_LEN, MAX_GRAM_TERM,
};
use crate::postings::{tag_of, tids_ok, Encoded, Encoder, Encoding, TermPostings, TAIL_PADDING};
use crate::space::{lemma_below_mono, lemma_below_nonneg, lemma_below_step, total, PageDir, SpaceTable, Widths};
use crate::terms::TermTable;
use crate::text::{chars_of, copy_of, fits, lemma_bytes_mono, lemma_occurs_bytes, starts};
use crate::tid::{Tid, MAX_OFFSET};
use crate::tokenize::{is_control, strings_view, terms_are_kept, terms_hold_no_controls, terms_of, tokens_of, Analyzer};
use crate::varint::embeds;
use crate::wire::{lemma_term_extend, payload_limit, term_count, term_ok, term_tids};
use crate::words;
use crate::words::{bit, get_bit, lemma_word_ops, ones_of};

verus! {

/// What a segment covers and how much it holds.
#[derive(Copy, Clone, Debug, PartialEq, Eq, Structural)]
pub struct SegmentMeta {
    pub first_block: u32,
    /// Exclusive.
    pub end_block: u32,
    pub doc_count: u64,
    /// Of the dictionary: grams count.
    pub term_count: u64,
    /// Of the tuples' own terms: grams don't count.
    pub posting_count: u64,
    /// Whether the terms' grams are stored as terms too.
    pub grams: bool,
}

/// A tuple and its distinct terms.
pub type DocTerms = (Tid, Set<Seq<char>>);

/// Whether the tuple is among the documents, with the term.
pub open spec fn doc_has(docs: Seq<DocTerms>, t: Seq<char>, tid: Tid) -> bool {
    exists|i: int| 0 <= i < docs.len() && (#[trigger] docs[i]).0 == tid && docs[i].1.contains(t)
}

/// Whether the tuple is among the documents, with a term that has the wide gram.
pub open spec fn doc_has_gram(docs: Seq<DocTerms>, g: Seq<char>, tid: Tid) -> bool {
    exists|t: Seq<char>| #[trigger] doc_has(docs, t, tid) && wide_grams_of(t).contains(g)
}

/// Whether the tuple is among the documents.
pub open spec fn doc_added(docs: Seq<DocTerms>, tid: Tid) -> bool {
    exists|i: int| 0 <= i < docs.len() && (#[trigger] docs[i]).0 == tid
}

/// Words of a bitmap with a bit for each line pointer of the pages.
pub open spec fn doc_word_count(w: Seq<u16>) -> int {
    (total(w, w.len() as int) + 63) / 64
}

/// Terms of a dictionary, in order.
pub open spec fn is_run(v: Map<Seq<u8>, u64>, ts: Seq<Seq<char>>) -> bool {
    &&& forall|i: int| 0 <= i < ts.len() ==> v.dom().contains(encode_utf8(#[trigger] ts[i]))
    &&& forall|i: int, j: int| 0 <= i < j < ts.len() ==> bytes_less(encode_utf8(#[trigger] ts[i]), encode_utf8(#[trigger] ts[j]))
}

/// All terms of a dictionary are listed.
pub open spec fn is_full(v: Map<Seq<u8>, u64>, ts: Seq<Seq<char>>) -> bool {
    forall|t: Seq<char>| #[trigger] v.dom().contains(encode_utf8(t)) ==> ts.contains(t)
}

/// The terms of a dictionary, in order.
pub open spec fn term_list(v: Map<Seq<u8>, u64>) -> Seq<Seq<char>> {
    choose|ts: Seq<Seq<char>>| is_run(v, ts) && #[trigger] is_full(v, ts)
}

/// The tuples of the first `n` terms, each term's counted for itself.
pub open spec fn run_sum(v: Map<Seq<u8>, u64>, area: Seq<u8>, d: Widths, ts: Seq<Seq<char>>, n: int) -> int
    decreases n,
{
    if n <= 0 {
        0
    } else {
        run_sum(v, area, d, ts, n - 1) + term_tids(v[encode_utf8(ts[n - 1])], area, d).len()
    }
}

proof fn lemma_run_same(v: Map<Seq<u8>, u64>, area: Seq<u8>, d: Widths, a: Seq<Seq<char>>, b: Seq<Seq<char>>, n: int)
    requires
        forall|i: int| 0 <= i < n ==> a[i] == b[i],
    ensures
        run_sum(v, area, d, a, n) == run_sum(v, area, d, b, n),
        run_sum(v, area, d, a, n) >= 0,
    decreases n,
{
    if n > 0 {
        lemma_run_same(v, area, d, a, b, n - 1);
        assert(a[n - 1] == b[n - 1]);
    }
}

/// Some terms have no more tuples than all of them.
proof fn lemma_run_part(v: Map<Seq<u8>, u64>, area: Seq<u8>, d: Widths, all: Seq<Seq<char>>, k: int, ts: Seq<Seq<char>>)
    requires
        0 <= k <= all.len(),
        is_run(v, all),
        is_run(v, ts),
        forall|i: int| 0 <= i < ts.len() ==> all.take(k).contains(#[trigger] ts[i]),
    ensures
        run_sum(v, area, d, ts, ts.len() as int) <= run_sum(v, area, d, all, k),
    decreases k,
{
    lemma_run_same(v, area, d, all, all, k);
    if ts.len() > 0 {
        let n = ts.len() as int;
        let t = ts[n - 1];
        assert(all.take(k).contains(t));
        let j = all.take(k).index_of(t);
        assert(all[j] == t);
        let last = all[k - 1];
        lemma_bytes_total(encode_utf8(last), encode_utf8(last));
        let less = if j == k - 1 { ts.drop_last() } else { ts };
        assert forall|i: int| 0 <= i < less.len() implies all.take(k - 1).contains(#[trigger] less[i]) by {
            assert(all.take(k).contains(ts[i]));
            let m = all.take(k).index_of(ts[i]);
            assert(all[m] == ts[i]);
            if m == k - 1 {
                if j < k - 1 {
                    assert(bytes_less(encode_utf8(all[j]), encode_utf8(all[k - 1])));
                    if i < n - 1 {
                        assert(bytes_less(encode_utf8(ts[i]), encode_utf8(ts[n - 1])));
                        lemma_bytes_less_trans(encode_utf8(last), encode_utf8(t), encode_utf8(last));
                    }
                } else {
                    assert(bytes_less(encode_utf8(ts[i]), encode_utf8(ts[n - 1])));
                }
            }
            assert(all.take(k - 1)[m] == ts[i]);
        }
        assert(is_run(v, less)) by {
            assert forall|i: int| 0 <= i < less.len() implies v.dom().contains(encode_utf8(#[trigger] less[i])) by {
                assert(less[i] == ts[i]);
            }
            assert forall|a: int, b: int| 0 <= a < b < less.len() implies bytes_less(encode_utf8(#[trigger] less[a]), encode_utf8(#[trigger] less[b])) by {
                assert(bytes_less(encode_utf8(ts[a]), encode_utf8(ts[b])));
            }
        }
        lemma_run_part(v, area, d, all, k - 1, less);
        if j == k - 1 {
            lemma_run_same(v, area, d, ts, less, n - 1);
        }
    }
}

/// Tuples in heap order.
pub open spec fn docs_ascend(docs: Seq<DocTerms>) -> bool {
    forall|i: int, j: int| 0 <= i < j < docs.len() ==> (#[trigger] docs[i]).0.before((#[trigger] docs[j]).0)
}

/// The most postings that a builder takes.
pub open spec fn size_limit(n: int) -> bool {
    n <= 0x40_0000_0000_0000 && n * 1000 + 0x1000_0000 <= usize::MAX
}

/// Accumulates documents (in ascending tid order) and encodes a [`Segment`].
pub struct SegmentBuilder {
    first_block: u32,
    end_block: u32,
    /// The segment ends with its last tuple's block.
    open: bool,
    analyzer: Analyzer,
    terms: TermTable,
    postings: Vec<Vec<Tid>>,
    widths: Vec<u16>,
    last_tid: Option<Tid>,
    /// Every tuple added, also those without terms.
    tids: Vec<Tid>,
    doc_count: u64,
    posting_count: u64,
    /// Store the terms' grams as terms too.
    grams: bool,
    /// Entries of all lists, those of grams among them.
    stored: u64,
    docs: Ghost<Seq<DocTerms>>,
    /// The documents with what is stored of them.
    kept: Ghost<Seq<DocTerms>>,
}

/// What is stored of a document with these terms: with `grams` their wide grams
/// too.
pub open spec fn stored_terms(grams: bool, terms: Set<Seq<char>>) -> Set<Seq<char>> {
    if grams {
        Set::new(|t: Seq<char>| terms.contains(t) || gram_among(terms, t))
    } else {
        terms
    }
}

/// Whether `g` is a wide gram of one of the terms.
pub open spec fn gram_among(terms: Set<Seq<char>>, g: Seq<char>) -> bool {
    exists|t: Seq<char>| #[trigger] terms.contains(t) && wide_grams_of(t).contains(g)
}

/// A term that an index with grams takes: no gram itself, and no longer than
/// the analyzer makes them.
pub open spec fn gram_ready(t: Seq<char>) -> bool {
    !is_gram(t) && t.len() <= MAX_GRAM_TERM
}

/// The analyzer makes no gram, and no term too long for grams.
pub proof fn terms_are_gram_ready(text: Seq<char>, i: int)
    requires
        0 <= i < terms_of(text).len(),
    ensures
        gram_ready(terms_of(text)[i]),
{
    let t = terms_of(text)[i];
    terms_are_kept(text);
    terms_hold_no_controls(text);
    assert(t == tokens_of(text)[i].term);
    lemma_bytes_mono(t, 0, t.len() as int);
    if is_gram(t) {
        assert(is_control(tokens_of(text)[i].term[0]));
    }
}

/// Whether a builder takes the term.
pub open spec fn takes(grams: bool, t: Seq<char>) -> bool {
    grams ==> gram_ready(t)
}

/// The tuples of the term `t`.
spec fn list_ok(list: Seq<Tid>, t: Seq<char>, docs: Seq<DocTerms>) -> bool {
    &&& list.len() >= 1
    &&& forall|i: int, j: int| 0 <= i < j < list.len() ==> (#[trigger] list[i]).before(#[trigger] list[j])
    &&& forall|x: Tid| #[trigger] list.contains(x) <==> doc_has(docs, t, x)
}

/// The lengths of the lists, summed.
spec fn sum_lens(p: Seq<Vec<Tid>>, n: int) -> int
    decreases n,
{
    if n <= 0 {
        0
    } else {
        sum_lens(p, n - 1) + p[n - 1]@.len()
    }
}

/// The distinct terms of the first `n` documents, summed.
pub open spec fn distinct_sum(docs: Seq<DocTerms>, n: int) -> int
    decreases n,
{
    if n <= 0 {
        0
    } else {
        distinct_sum(docs, n - 1) + docs[n - 1].1.len()
    }
}

pub proof fn lemma_distinct_push(docs: Seq<DocTerms>, e: DocTerms, n: int)
    requires
        0 <= n <= docs.len(),
    ensures
        distinct_sum(docs.push(e), n) == distinct_sum(docs, n),
    decreases n,
{
    if n > 0 {
        lemma_distinct_push(docs, e, n - 1);
    }
}

impl SegmentBuilder {
    /// The documents so far.
    pub closed spec fn docs(&self) -> Seq<DocTerms> {
        self.docs@
    }

    /// The blocks that the segment covers.
    pub closed spec fn range(&self) -> (u32, u32) {
        (self.first_block, self.end_block)
    }

    /// The first block past the segment that [`finish`](Self::finish) gives.
    pub open spec fn ends(&self) -> int {
        if !self.is_open() {
            self.range().1 as int
        } else if self.docs().len() == 0 {
            self.range().0 as int
        } else {
            self.docs().last().0.block + 1
        }
    }

    /// Whether the segment ends with its last tuple's block.
    pub closed spec fn is_open(&self) -> bool {
        self.open
    }

    /// Whether the terms' grams are stored too.
    pub closed spec fn spec_grams(&self) -> bool {
        self.grams
    }

    /// What one term counts for in [`size`](Self::size): itself, and as many
    /// grams as it may have.
    pub open spec fn weight(&self) -> int {
        if self.spec_grams() {
            MAX_GRAM_TERM as int
        } else {
            1
        }
    }

    /// A bound on what is stored so far.
    pub closed spec fn size(&self) -> int {
        self.weight() * self.posting_count
    }

    spec fn dir(&self) -> Widths {
        Widths { first: self.first_block as int, widths: self.widths@ }
    }

    pub closed spec fn wf(&self) -> bool {
        &&& self.lists_core()
        &&& self.pairs_ok()
    }

    spec fn lists_core(&self) -> bool {
        &&& self.docs_ok()
        &&& self.lists_ok()
    }

    /// What is stored of the documents.
    spec fn pairs_ok(&self) -> bool {
        &&& self.docs@.len() == self.kept@.len()
        &&& forall|i: int| 0 <= i < self.docs@.len() ==> self.pair_ok(#[trigger] self.docs@[i], self.kept@[i])
        &&& self.posting_count == distinct_sum(self.docs@, self.docs@.len() as int)
        &&& self.stored <= self.weight() * self.posting_count
        &&& size_limit(self.weight() * self.posting_count)
    }

    spec fn pair_ok(&self, d: DocTerms, k: DocTerms) -> bool {
        &&& d.0 == k.0
        &&& d.1.finite()
        &&& k.1 == stored_terms(self.grams, d.1)
        &&& forall|t: Seq<char>| #[trigger] d.1.contains(t) ==> takes(self.grams, t)
    }

    /// The documents, in order and on the pages that the directory knows.
    spec fn docs_ok(&self) -> bool {
        &&& self.first_block <= self.end_block
        &&& (self.end_block - self.first_block) * 512 + 0x1_0000 <= usize::MAX
        &&& self.widths@.len() <= self.end_block - self.first_block
        &&& self.kept@.len() == 0 ==> self.widths@.len() == 0
        &&& self.kept@.len() > 0 ==> self.widths@.len() == self.kept@.last().0.block - self.first_block + 1
        &&& forall|i: int| 0 <= i < self.widths@.len() ==> #[trigger] self.widths@[i] <= MAX_OFFSET
        &&& docs_ascend(self.kept@)
        &&& forall|i: int| 0 <= i < self.kept@.len() ==> {
            &&& (#[trigger] self.kept@[i]).0.valid()
            &&& self.first_block <= self.kept@[i].0.block < self.end_block
            &&& self.dir().holds(self.kept@[i].0)
        }
        &&& self.doc_count == self.kept@.len()
        &&& self.tids@.len() == self.kept@.len()
        &&& forall|i: int| 0 <= i < self.tids@.len() ==> #[trigger] self.tids@[i] == self.kept@[i].0
        &&& match self.last_tid {
            Some(t) => self.kept@.len() > 0 && t == self.kept@.last().0,
            None => self.kept@.len() == 0,
        }
    }

    /// The terms and their tuples.
    spec fn lists_ok(&self) -> bool {
        &&& self.terms.wf()
        &&& self.postings@.len() == self.terms.names().len()
        &&& forall|i: int| 0 <= i < self.postings@.len() ==> list_ok((#[trigger] self.postings@[i])@, self.terms.names()[i], self.kept@)
        &&& forall|t: Seq<char>, x: Tid| #[trigger] doc_has(self.kept@, t, x) ==> self.terms.names().contains(t)
        &&& self.stored == sum_lens(self.postings@, self.postings@.len() as int)
        &&& self.stored == distinct_sum(self.kept@, self.kept@.len() as int)
        &&& forall|i: int| 0 <= i < self.kept@.len() ==> (#[trigger] self.kept@[i]).1.finite()
        &&& size_limit(self.stored as int)
    }

    pub fn new(first_block: u32, end_block: u32) -> (r: Self)
        requires
            first_block <= end_block,
            (end_block - first_block) * 512 + 0x1_0000 <= usize::MAX,
            size_limit(0),
        ensures
            r.wf(),
            r.docs().len() == 0,
            r.range() == (first_block, end_block),
            r.size() == 0,
            !r.is_open(),
            !r.spec_grams(),
    {
        let b: SegmentBuilder = SegmentBuilder {
            first_block,
            end_block,
            open: false,
            analyzer: Analyzer::new(),
            terms: TermTable::new(),
            postings: Vec::new(),
            widths: Vec::new(),
            last_tid: None,
            tids: Vec::new(),
            doc_count: 0,
            posting_count: 0,
            grams: false,
            stored: 0,
            docs: Ghost(Seq::empty()),
            kept: Ghost(Seq::empty()),
        };
        b
    }

    /// Whether to store the terms' grams too, for fragments.
    pub fn with_grams(self, grams: bool) -> (r: Self)
        requires
            self.wf(),
            self.docs().len() == 0,
        ensures
            r.wf(),
            r.docs() == self.docs(),
            r.range() == self.range(),
            r.is_open() == self.is_open(),
            r.spec_grams() == grams,
            r.size() == 0,
    {
        let mut b: SegmentBuilder = self;
        b.grams = grams;
        proof {
            assert(b.posting_count == 0);
        }
        b
    }

    /// A segment from `first_block` on that ends with its last tuple's block.
    pub fn open_ended(first_block: u32) -> (r: Self)
        requires
            (u32::MAX - first_block) * 512 + 0x1_0000 <= usize::MAX,
            size_limit(0),
        ensures
            r.wf(),
            r.docs().len() == 0,
            r.range() == (first_block, u32::MAX),
            r.size() == 0,
            r.is_open(),
            !r.spec_grams(),
    {
        let mut b: SegmentBuilder = SegmentBuilder::new(first_block, 0xFFFF_FFFF);
        b.open = true;
        b
    }

    /// How many tuples were added.
    pub fn doc_count(&self) -> (r: u64)
        requires
            self.wf(),
        ensures
            r == self.docs().len(),
    {
        self.doc_count
    }

    /// Index one tuple. Tids must be strictly ascending and inside the
    /// segment's block range.
    pub fn add(&mut self, tid: Tid, text: &str)
        requires
            old(self).wf(),
            tid.valid(),
            old(self).range().0 <= tid.block < old(self).range().1,
            old(self).docs().len() > 0 ==> old(self).docs().last().0.before(tid),
            fits(text@),
            size_limit(old(self).size() + old(self).weight() * text@.len()),
            old(self).docs().len() < u64::MAX,
        ensures
            final(self).wf(),
            final(self).docs() == old(self).docs().push((tid, terms_of(text@).to_set())),
            final(self).range() == old(self).range(),
            final(self).is_open() == old(self).is_open(),
            final(self).spec_grams() == old(self).spec_grams(),
            final(self).size() <= old(self).size() + old(self).weight() * text@.len(),
    {
        let terms: Vec<String> = self.analyzer.terms(text);
        proof {
            let (w, a, b) = (self.weight(), terms@.len() as int, text@.len() as int);
            assert(w * a <= w * b) by (nonlinear_arith)
                requires
                    w >= 0,
                    a <= b,
            ;
            assert forall|i: int| 0 <= i < terms@.len() implies takes(self.grams, (#[trigger] terms@[i])@) by {
                assert(strings_view(terms@)[i] == terms@[i]@);
                terms_are_gram_ready(text@, i);
            }
        }
        self.add_terms(tid, &terms);
        proof {
            assert(strings_view(terms@).to_set() == terms_of(text@).to_set());
        }
    }

    /// Index one tuple by its terms, which may repeat.
    pub fn add_terms(&mut self, tid: Tid, terms: &Vec<String>)
        requires
            old(self).wf(),
            tid.valid(),
            old(self).range().0 <= tid.block < old(self).range().1,
            old(self).docs().len() > 0 ==> old(self).docs().last().0.before(tid),
            forall|i: int| 0 <= i < terms@.len() ==> takes(old(self).spec_grams(), (#[trigger] terms@[i])@),
            size_limit(old(self).size() + old(self).weight() * terms@.len()),
            old(self).docs().len() < u64::MAX,
        ensures
            final(self).wf(),
            final(self).docs() == old(self).docs().push((tid, strings_view(terms@).to_set())),
            final(self).range() == old(self).range(),
            final(self).is_open() == old(self).is_open(),
            final(self).spec_grams() == old(self).spec_grams(),
            final(self).size() <= old(self).size() + old(self).weight() * terms@.len(),
    {
        let ghost before = *self;
        let ghost tv = strings_view(terms@);
        let ghost (base, own) = (self.kept@, self.docs@);
        proof {
            if own.len() > 0 {
                assert(self.pair_ok(own[own.len() - 1], base[own.len() - 1]));
            }
        }
        self.start_doc(tid);
        self.docs = Ghost(own.push((tid, Set::<Seq<char>>::empty())));
        let mut i: usize = 0;
        proof {
            let none = Set::<Seq<char>>::empty();
            assert(tv.take(0).to_set() =~= none);
            assert(stored_terms(self.grams, none) =~= none) by {
                assert forall|t: Seq<char>| !gram_among(none, t) by {}
            }
            lemma_distinct_push(own, (tid, none), own.len() as int);
            assert(distinct_sum(self.docs@, self.docs@.len() as int) == distinct_sum(own, own.len() as int) + none.len());
            assert forall|k: int| 0 <= k < self.docs@.len() implies self.pair_ok(#[trigger] self.docs@[k], self.kept@[k]) by {
                if k < own.len() {
                    assert(before.pair_ok(own[k], base[k]));
                    assert(self.docs@[k] == own[k] && self.kept@[k] == base[k]);
                }
            }
        }
        while i < terms.len()
            invariant
                i <= terms@.len(),
                tv == strings_view(terms@),
                self.wf(),
                before.wf(),
                self.grams == before.grams,
                self.range() == before.range(),
                self.is_open() == before.is_open(),
                self.docs@ == own.push((tid, tv.take(i as int).to_set())),
                self.posting_count <= before.posting_count + i,
                forall|k: int| 0 <= k < terms@.len() ==> takes(self.grams, (#[trigger] terms@[k])@),
                size_limit(self.weight() * before.posting_count + self.weight() * terms@.len()),
            decreases terms@.len() - i,
        {
            let ghost set = tv.take(i as int).to_set();
            proof {
                assert(tv[i as int] == terms@[i as int]@);
                let (w, a, b) = (self.weight(), self.posting_count + 1, before.posting_count + terms@.len());
                assert(w * a <= w * b) by (nonlinear_arith)
                    requires
                        w >= 0,
                        a <= b,
                ;
                assert(w * b == w * before.posting_count + w * terms@.len()) by (nonlinear_arith)
                    requires
                        b == before.posting_count + terms@.len(),
                ;
            }
            self.add_real(terms[i].as_str(), tid, Ghost(own), Ghost(set));
            proof {
                assert(tv.take(i + 1) =~= tv.take(i as int).push(tv[i as int]));
                assert(tv.take(i + 1).to_set() =~= set.insert(tv[i as int])) by {
                    assert forall|t: Seq<char>| tv.take(i + 1).to_set().contains(t) <==> set.insert(tv[i as int]).contains(t) by {
                        crate::space::lemma_push_contains(tv.take(i as int), tv[i as int], t);
                    }
                }
            }
            i = i + 1;
        }
        proof {
            assert(tv.take(i as int) =~= tv);
            let (w, a, b) = (self.weight(), self.posting_count as int, before.posting_count + terms@.len());
            assert(w * a <= w * b) by (nonlinear_arith)
                requires
                    w >= 0,
                    a <= b,
            ;
            assert(w * b == w * before.posting_count + w * terms@.len()) by (nonlinear_arith)
                requires
                    b == before.posting_count + terms@.len(),
            ;
        }
    }

    /// Add a term to the last tuple, and its grams where they are stored.
    fn add_real(&mut self, term: &str, tid: Tid, Ghost(own): Ghost<Seq<DocTerms>>, Ghost(set): Ghost<Set<Seq<char>>>)
        requires
            old(self).wf(),
            old(self).docs@ == own.push((tid, set)),
            takes(old(self).grams, term@),
            size_limit(old(self).weight() * (old(self).posting_count + 1)),
        ensures
            final(self).wf(),
            final(self).docs@ == own.push((tid, set.insert(term@))),
            final(self).grams == old(self).grams,
            final(self).range() == old(self).range(),
            final(self).is_open() == old(self).is_open(),
            final(self).posting_count <= old(self).posting_count + 1,
    {
        let ghost before = *self;
        let ghost w = self.weight();
        let ghost n = own.len() as int;
        let ghost held = self.kept@[n].1;
        let ghost base = self.kept@.drop_last();
        proof {
            assert(self.pair_ok(self.docs@[n], self.kept@[n]));
            assert(self.kept@ =~= base.push((tid, held)));
            assert(w * (self.posting_count + 1) == w * self.posting_count + w) by (nonlinear_arith);
            assert(w * self.posting_count >= self.posting_count) by (nonlinear_arith)
                requires
                    w >= 1,
                    self.posting_count >= 0,
            ;
        }
        let fresh: bool = self.add_term(term, tid, Ghost(base), Ghost(held));
        proof {
            assert(fresh <==> !set.contains(term@)) by {
                if self.grams && held.contains(term@) && !set.contains(term@) {
                    let t = choose|t: Seq<char>| #[trigger] set.contains(t) && wide_grams_of(t).contains(term@);
                    lemma_wide_is_gram(t, term@);
                }
            }
        }
        let ghost grown = set.insert(term@);
        let ghost mut now = held.insert(term@);
        if fresh {
            self.posting_count = self.posting_count + 1;
            if self.grams {
                let gs: Vec<String> = wide_grams(term);
                let ghost gv = strings_view(gs@);
                let mut k: usize = 0;
                while k < gs.len()
                    invariant
                        k <= gs@.len() <= 62,
                        gv == strings_view(gs@),
                        self.lists_core(),
                        self.grams == before.grams,
                        self.posting_count == before.posting_count + 1,
                        self.docs@ == before.docs@,
                        self.range() == before.range(),
                        self.is_open() == before.is_open(),
                        self.kept@ == base.push((tid, now)),
                        forall|t: Seq<char>| #[trigger] now.contains(t) <==> held.contains(t) || t == term@ || gv.take(k as int).contains(t),
                        self.stored <= w * before.posting_count + 1 + k,
                        w == 64,
                        size_limit(w * before.posting_count + w),
                    decreases gs@.len() - k,
                {
                    let ghost was = now;
                    let _ = self.add_term(gs[k].as_str(), tid, Ghost(base), Ghost(was));
                    proof {
                        let g = gs@[k as int]@;
                        assert(gv[k as int] == g);
                        now = was.insert(g);
                        assert(gv.take(k + 1) =~= gv.take(k as int).push(g));
                        assert forall|t: Seq<char>| #[trigger] now.contains(t) <==> held.contains(t) || t == term@ || gv.take(k + 1).contains(t) by {
                            crate::space::lemma_push_contains(gv.take(k as int), g, t);
                        }
                    }
                    k = k + 1;
                }
                proof {
                    assert(gv.take(k as int) =~= gv);
                    assert forall|t: Seq<char>| gv.contains(t) <==> wide_grams_of(term@).contains(t) by {
                        assert(gv.to_set().contains(t) <==> gv.contains(t));
                    }
                }
            }
        }
        self.docs = Ghost(own.push((tid, grown)));
        proof {
            assert(now =~= stored_terms(self.grams, grown)) by {
                assert forall|t: Seq<char>| now.contains(t) <==> stored_terms(self.grams, grown).contains(t) by {
                    if self.grams {
                        if gram_among(grown, t) && !gram_among(set, t) {
                            let x = choose|x: Seq<char>| #[trigger] grown.contains(x) && wide_grams_of(x).contains(t);
                            assert(x == term@);
                        }
                        if gram_among(set, t) {
                            let x = choose|x: Seq<char>| #[trigger] set.contains(x) && wide_grams_of(x).contains(t);
                            assert(grown.contains(x));
                        }
                        if wide_grams_of(term@).contains(t) {
                            assert(grown.contains(term@));
                        }
                        if !fresh {
                            assert(grown =~= set);
                        }
                    }
                }
            }
            lemma_distinct_push(own, (tid, grown), n);
            lemma_distinct_push(own, (tid, set), n);
            assert(distinct_sum(self.docs@, n + 1) == distinct_sum(own, n) + grown.len());
            assert(distinct_sum(before.docs@, n + 1) == distinct_sum(own, n) + set.len());
            if !fresh {
                assert(grown =~= set);
            }
            assert forall|k: int| 0 <= k < self.docs@.len() implies self.pair_ok(#[trigger] self.docs@[k], self.kept@[k]) by {
                assert(before.pair_ok(before.docs@[k], before.kept@[k]));
                if k < n {
                    assert(self.docs@[k] == before.docs@[k] && self.kept@[k] == before.kept@[k]);
                } else {
                    assert forall|t: Seq<char>| #[trigger] grown.contains(t) implies takes(self.grams, t) by {
                        if t != term@ {
                            assert(set.contains(t));
                        }
                    }
                }
            }
        }
    }

    /// Note a tuple that has no terms yet.
    fn start_doc(&mut self, tid: Tid)
        requires
            old(self).lists_core(),
            tid.valid(),
            old(self).range().0 <= tid.block < old(self).range().1,
            old(self).kept@.len() > 0 ==> old(self).kept@.last().0.before(tid),
            old(self).kept@.len() < u64::MAX,
        ensures
            final(self).lists_core(),
            final(self).kept@ == old(self).kept@.push((tid, Set::<Seq<char>>::empty())),
            final(self).range() == old(self).range(),
            final(self).is_open() == old(self).is_open(),
            final(self).stored == old(self).stored,
            final(self).docs == old(self).docs,
            final(self).grams == old(self).grams,
            final(self).posting_count == old(self).posting_count,
    {
        let ghost before = *self;
        self.last_tid = Some(tid);
        self.tids.push(tid);
        self.doc_count = self.doc_count + 1;
        let page: usize = (tid.block - self.first_block) as usize;
        while self.widths.len() <= page
            invariant
                self.first_block == before.first_block,
                self.end_block == before.end_block,
                self.open == before.open,
                page < self.end_block - self.first_block,
                before.widths@.len() <= self.widths@.len() <= self.end_block - self.first_block,
                before.widths@.len() <= page ==> self.widths@.len() <= page + 1,
                forall|i: int| 0 <= i < before.widths@.len() ==> self.widths@[i] == before.widths@[i],
                forall|i: int| before.widths@.len() <= i < self.widths@.len() ==> self.widths@[i] == 0,
                before.widths@.len() > page ==> self.widths@ == before.widths@,
                self.terms == before.terms,
                self.postings == before.postings,
                self.stored == before.stored,
                self.doc_count == before.doc_count + 1,
                self.last_tid == Some(tid),
                self.tids@ == before.tids@.push(tid),
                self.kept == before.kept,
                self.docs == before.docs,
                self.grams == before.grams,
                self.posting_count == before.posting_count,
            decreases page + 1 - self.widths@.len(),
        {
            self.widths.push(0);
        }
        if self.widths[page] < tid.offset {
            self.widths.set(page, tid.offset);
        }
        self.kept = Ghost(before.kept@.push((tid, Set::<Seq<char>>::empty())));
        proof {
            let (o, n) = (before.kept@, self.kept@);
            lemma_distinct_push(o, (tid, Set::<Seq<char>>::empty()), o.len() as int);
            assert forall|i: int| 0 <= i < n.len() implies (#[trigger] n[i]).1.finite() by {
                if i < o.len() {
                    assert(n[i] == o[i]);
                }
            }
            assert forall|t: Seq<char>, x: Tid| doc_has(n, t, x) == doc_has(o, t, x) by {
                lemma_doc_has_push(o, (tid, Set::<Seq<char>>::empty()), t, x);
            }
            assert forall|i: int| 0 <= i < n.len() implies {
                &&& (#[trigger] n[i]).0.valid()
                &&& self.first_block <= n[i].0.block < self.end_block
                &&& self.dir().holds(n[i].0)
            } by {
                if i < o.len() {
                    assert(n[i] == o[i]);
                    assert(before.dir().holds(o[i].0));
                }
            }
            assert forall|i: int, j: int| 0 <= i < j < n.len() implies (#[trigger] n[i]).0.before((#[trigger] n[j]).0) by {
                if j < o.len() {
                    assert(o[i].0.before(o[j].0));
                } else if i < o.len() - 1 {
                    assert(o[i].0.before(o[o.len() - 1].0));
                }
            }
            assert forall|i: int| 0 <= i < self.postings@.len() implies list_ok((#[trigger] self.postings@[i])@, self.terms.names()[i], n) by {
                assert(list_ok(before.postings@[i]@, before.terms.names()[i], o));
                let l = self.postings@[i]@;
                assert forall|x: Tid| #[trigger] l.contains(x) <==> doc_has(n, self.terms.names()[i], x) by {
                    assert(doc_has(n, self.terms.names()[i], x) == doc_has(o, self.terms.names()[i], x));
                }
            }
            assert forall|t: Seq<char>, x: Tid| #[trigger] doc_has(n, t, x) implies self.terms.names().contains(t) by {
                assert(doc_has(o, t, x));
            }
            assert forall|i: int| 0 <= i < self.widths@.len() implies #[trigger] self.widths@[i] <= MAX_OFFSET by {
                if i < before.widths@.len() {
                    assert(before.widths@[i] <= MAX_OFFSET);
                }
            }
        }
    }

    /// Add a term to the last tuple.
    fn add_term(&mut self, term: &str, tid: Tid, Ghost(base): Ghost<Seq<DocTerms>>, Ghost(set): Ghost<Set<Seq<char>>>) -> (fresh: bool)
        requires
            old(self).lists_core(),
            old(self).kept@ == base.push((tid, set)),
            size_limit(old(self).stored + 1),
        ensures
            final(self).lists_core(),
            final(self).kept@ == base.push((tid, set.insert(term@))),
            final(self).range() == old(self).range(),
            final(self).is_open() == old(self).is_open(),
            final(self).stored <= old(self).stored + 1,
            final(self).docs == old(self).docs,
            final(self).grams == old(self).grams,
            final(self).posting_count == old(self).posting_count,
            fresh <==> !set.contains(term@),
            !fresh ==> final(self).stored == old(self).stored,
    {
        let ghost before = *self;
        let ghost o = self.kept@;
        let ghost n = base.push((tid, set.insert(term@)));
        let id: usize = self.terms.intern(term);
        proof {
            self.terms.lemma_distinct();
            before.terms.lemma_distinct();
            assert forall|t: Seq<char>, x: Tid| doc_has(n, t, x) <==> doc_has(o, t, x) || (t == term@ && x == tid) by {
                lemma_doc_has_push(base, (tid, set), t, x);
                lemma_doc_has_push(base, (tid, set.insert(term@)), t, x);
            }
        }
        if id == self.postings.len() {
            self.postings.push(Vec::new());
        }
        let ghost mid = self.postings@;
        // Boolean postings: one entry per tuple however often the term repeats.
        let len: usize = self.postings[id].len();
        let repeat: bool = len > 0 && self.postings[id][len - 1] == tid;
        if !repeat {
            self.postings[id].push(tid);
            self.stored = self.stored + 1;
        }
        self.kept = Ghost(n);
        proof {
            let names = self.terms.names();
            if before.terms.names().contains(term@) {
                assert(id < before.postings@.len());
            }
            assert forall|x: Tid| mid[id as int]@.contains(x) <==> doc_has(o, term@, x) by {
                if id < before.postings@.len() {
                    assert(list_ok(before.postings@[id as int]@, before.terms.names()[id as int], o));
                } else {
                    assert(mid[id as int]@ =~= Seq::empty());
                    if doc_has(o, term@, x) {
                        assert(before.terms.names().contains(term@));
                    }
                }
            }
            assert forall|x: Tid| mid[id as int]@.contains(x) implies x == tid || x.before(tid) by {
                assert(doc_has(o, term@, x));
                let k = choose|k: int| 0 <= k < o.len() && (#[trigger] o[k]).0 == x && o[k].1.contains(term@);
                if k < o.len() - 1 {
                    assert(o[k].0.before(o[o.len() - 1].0));
                }
            }
            assert forall|i: int| 0 <= i < self.postings@.len() implies list_ok((#[trigger] self.postings@[i])@, names[i], n) by {
                let l = self.postings@[i]@;
                if i != id {
                    assert(list_ok(before.postings@[i]@, before.terms.names()[i], o));
                    assert(names[i] == before.terms.names()[i]);
                    assert(names[i] != term@);
                    assert forall|x: Tid| #[trigger] l.contains(x) <==> doc_has(n, names[i], x) by {
                        assert(doc_has(n, names[i], x) <==> doc_has(o, names[i], x));
                    }
                } else {
                    let m = mid[i]@;
                    if i < before.postings@.len() {
                        assert(list_ok(before.postings@[i]@, before.terms.names()[i], o));
                    }
                    if repeat {
                        assert(m.contains(tid)) by {
                            assert(m[len - 1] == tid);
                        }
                        assert forall|x: Tid| #[trigger] l.contains(x) <==> doc_has(n, names[i], x) by {
                            assert(m.contains(x) <==> doc_has(o, term@, x));
                            assert(doc_has(n, term@, x) <==> doc_has(o, term@, x) || x == tid);
                        }
                    } else {
                        assert(l == m.push(tid));
                        assert forall|x: Tid| #[trigger] l.contains(x) <==> doc_has(n, names[i], x) by {
                            crate::space::lemma_push_contains(m, tid, x);
                            assert(m.contains(x) <==> doc_has(o, term@, x));
                            assert(doc_has(n, term@, x) <==> doc_has(o, term@, x) || x == tid);
                        }
                        assert forall|a: int, b: int| 0 <= a < b < l.len() implies (#[trigger] l[a]).before(#[trigger] l[b]) by {
                            if b == m.len() {
                                assert(m.contains(m[a]));
                                if m[a] == tid {
                                    // Only the last entry can be the tuple itself.
                                    if a < m.len() - 1 {
                                        assert(m[a].before(m[m.len() - 1]));
                                        assert(m.contains(m[m.len() - 1]));
                                    }
                                    assert(false);
                                }
                            }
                        }
                    }
                }
            }
            assert forall|t: Seq<char>, x: Tid| #[trigger] doc_has(n, t, x) implies names.contains(t) by {
                if doc_has(o, t, x) {
                    assert(before.terms.names().contains(t));
                    let k = before.terms.names().index_of(t);
                    assert(names[k] == t);
                } else {
                    assert(names[id as int] == t);
                }
            }
            lemma_sum_update(before.postings@, mid, self.postings@, id as int);
            assert(o.last() == (tid, set));
            assert(o.last().1.finite());
            assert(repeat <==> set.contains(term@)) by {
                let m = mid[id as int]@;
                lemma_doc_has_push(base, (tid, set), term@, tid);
                if repeat {
                    assert(m.contains(m[len - 1]));
                    assert(doc_has(o, term@, tid));
                    let k = choose|k: int| 0 <= k < o.len() && (#[trigger] o[k]).0 == tid && o[k].1.contains(term@);
                    if k < o.len() - 1 {
                        assert(o[k].0.before(o[o.len() - 1].0));
                    }
                }
                if set.contains(term@) {
                    assert(m.contains(tid));
                    let a = m.index_of(tid);
                    if a < m.len() - 1 {
                        if id < before.postings@.len() {
                            assert(list_ok(before.postings@[id as int]@, before.terms.names()[id as int], o));
                        }
                        assert(m[a].before(m[m.len() - 1]));
                        assert(m.contains(m[m.len() - 1]));
                    }
                }
            }
            lemma_distinct_push(base, (tid, set), base.len() as int);
            lemma_distinct_push(base, (tid, set.insert(term@)), base.len() as int);
            assert(n.last() == (tid, set.insert(term@)));
            if set.contains(term@) {
                assert(set.insert(term@) =~= set);
            }
            assert forall|i: int| 0 <= i < n.len() implies (#[trigger] n[i]).1.finite() by {
                if i < base.len() {
                    assert(n[i] == o[i]);
                }
            }
            assert forall|i: int| 0 <= i < n.len() implies {
                &&& (#[trigger] n[i]).0.valid()
                &&& self.first_block <= n[i].0.block < self.end_block
                &&& self.dir().holds(n[i].0)
            } by {
                assert(n[i].0 == o[i].0);
                assert(o[i].0.valid());
            }
            assert forall|i: int, j: int| 0 <= i < j < n.len() implies (#[trigger] n[i]).0.before((#[trigger] n[j]).0) by {
                assert(o[i].0.before(o[j].0));
            }
        }
        !repeat
    }
}

pub proof fn lemma_doc_has_push(docs: Seq<DocTerms>, e: DocTerms, t: Seq<char>, x: Tid)
    ensures
        doc_has(docs.push(e), t, x) <==> doc_has(docs, t, x) || (e.0 == x && e.1.contains(t)),
{
    let d2 = docs.push(e);
    if doc_has(docs, t, x) {
        let i = choose|i: int| 0 <= i < docs.len() && (#[trigger] docs[i]).0 == x && docs[i].1.contains(t);
        assert(d2[i] == docs[i]);
    }
    if e.0 == x && e.1.contains(t) {
        assert(d2[docs.len() as int] == e);
    }
    if doc_has(d2, t, x) {
        let i = choose|i: int| 0 <= i < d2.len() && (#[trigger] d2[i]).0 == x && d2[i].1.contains(t);
        if i < docs.len() {
            assert(docs[i] == d2[i]);
        }
    }
}

proof fn lemma_sum_same(a: Seq<Vec<Tid>>, b: Seq<Vec<Tid>>, n: int)
    requires
        n <= a.len(),
        n <= b.len(),
        forall|i: int| 0 <= i < n ==> a[i]@.len() == b[i]@.len(),
    ensures
        sum_lens(a, n) == sum_lens(b, n),
    decreases n,
{
    if n > 0 {
        lemma_sum_same(a, b, n - 1);
    }
}

/// One list may have grown by one entry, and may be new.
proof fn lemma_sum_update(a: Seq<Vec<Tid>>, m: Seq<Vec<Tid>>, b: Seq<Vec<Tid>>, id: int)
    requires
        0 <= id < m.len(),
        m.len() == b.len(),
        m == a || (m.len() == a.len() + 1 && id == a.len() && m[id]@.len() == 0 && forall|i: int| 0 <= i < a.len() ==> m[i] == a[i]),
        forall|i: int| 0 <= i < m.len() && i != id ==> b[i] == m[i],
    ensures
        sum_lens(b, b.len() as int) == sum_lens(a, a.len() as int) + b[id]@.len() - m[id]@.len(),
{
    if m.len() > a.len() {
        lemma_sum_same(a, m, a.len() as int);
        assert(sum_lens(m, m.len() as int) == sum_lens(m, a.len() as int) + m[id]@.len());
    }
    lemma_sum_change(m, b, id, m.len() as int);
}

proof fn lemma_sum_change(m: Seq<Vec<Tid>>, b: Seq<Vec<Tid>>, id: int, n: int)
    requires
        0 <= id < m.len(),
        m.len() == b.len(),
        0 <= n <= m.len(),
        forall|i: int| 0 <= i < m.len() && i != id ==> b[i] == m[i],
    ensures
        sum_lens(b, n) == sum_lens(m, n) + if id < n { b[id]@.len() - m[id]@.len() } else { 0 },
    decreases n,
{
    if n > 0 {
        lemma_sum_change(m, b, id, n - 1);
    }
}

// ---------------------------------------------------------------------------
// Finishing
// ---------------------------------------------------------------------------

/// Size accounting for one frequency class of terms.
#[derive(Copy, Clone, Debug, PartialEq, Eq, Structural)]
pub struct ClassStats {
    pub terms: u64,
    pub postings: u64,
    pub bytes: u64,
}

impl ClassStats {
    /// Both together.
    pub fn plus(self, o: ClassStats) -> (r: ClassStats)
        requires
            self.terms + o.terms <= u64::MAX,
            self.postings + o.postings <= u64::MAX,
            self.bytes + o.bytes <= u64::MAX,
        ensures
            r == (ClassStats {
                terms: (self.terms + o.terms) as u64,
                postings: (self.postings + o.postings) as u64,
                bytes: (self.bytes + o.bytes) as u64,
            }),
    {
        ClassStats { terms: self.terms + o.terms, postings: self.postings + o.postings, bytes: self.bytes + o.bytes }
    }
}

/// One term's size: its encoding, and its tuples and bytes.
#[derive(Copy, Clone, Debug, PartialEq, Eq, Structural)]
pub struct TermSize {
    pub encoding: Encoding,
    pub stats: ClassStats,
}

/// The bytes of the first `n` terms.
pub open spec fn bytes_sum(sizes: Seq<TermSize>, n: int) -> int
    decreases n,
{
    if n <= 0 {
        0
    } else {
        bytes_sum(sizes, n - 1) + sizes[n - 1].stats.bytes
    }
}

proof fn lemma_bytes_sum_push(sizes: Seq<TermSize>, x: TermSize, n: int)
    requires
        n <= sizes.len(),
    ensures
        bytes_sum(sizes.push(x), n) == bytes_sum(sizes, n),
    decreases n,
{
    if n > 0 {
        lemma_bytes_sum_push(sizes, x, n - 1);
    }
}

/// The size of the term `t` of a segment.
pub open spec fn is_size(e: TermSize, t: Seq<char>, s: Segment) -> bool {
    let value = s.stored()[encode_utf8(t)];
    &&& e.stats.terms == 1
    &&& e.stats.postings == term_tids(value, s.area(), s.dir()).len()
    &&& value as int / payload_limit() == tag_of(e.encoding)
    &&& e.encoding == Encoding::Singleton ==> e.stats.bytes == 0
}

/// The sizes of a segment's terms `ts`, in term order: together they are all
/// of its postings area but the padding.
pub open spec fn are_sizes(sizes: Seq<TermSize>, ts: Seq<Seq<char>>, s: Segment) -> bool {
    &&& ts.len() == sizes.len()
    &&& forall|i: int, j: int| 0 <= i < j < ts.len() ==> bytes_less(encode_utf8(#[trigger] ts[i]), encode_utf8(#[trigger] ts[j]))
    &&& forall|key: Seq<u8>| #[trigger] s.stored().dom().contains(key) <==> exists|i: int| 0 <= i < ts.len() && encode_utf8(#[trigger] ts[i]) == key
    &&& forall|i: int| 0 <= i < ts.len() ==> is_size(sizes[i], #[trigger] ts[i], s)
    &&& bytes_sum(sizes, sizes.len() as int) + TAIL_PADDING == s.area().len()
}

/// The numbers `lo..hi` ordered by the keys they stand for.
spec fn ordered(ids: Seq<usize>, keys: Seq<Vec<u8>>, lo: int, hi: int) -> bool {
    &&& ids.len() == hi - lo
    &&& forall|i: int| 0 <= i < ids.len() ==> lo <= #[trigger] ids[i] < hi
    &&& forall|i: int, j: int| 0 <= i < j < ids.len() ==> bytes_less(keys[(#[trigger] ids[i]) as int]@, keys[(#[trigger] ids[j]) as int]@)
    &&& forall|x: int| lo <= x < hi ==> ids.contains(#[trigger] cast(x))
}

spec fn cast(x: int) -> usize {
    x as usize
}

/// Sort the numbers `lo..hi` by their keys, which are distinct.
fn sort_keys(keys: &Vec<Vec<u8>>, lo: usize, hi: usize) -> (r: Vec<usize>)
    requires
        lo <= hi <= keys@.len(),
        forall|i: int, j: int| 0 <= i < keys@.len() && 0 <= j < keys@.len() && i != j ==> keys@[i]@ != keys@[j]@,
    ensures
        ordered(r@, keys@, lo as int, hi as int),
    decreases hi - lo,
{
    let mut out: Vec<usize> = Vec::new();
    if hi - lo == 0 {
        return out;
    }
    if hi - lo == 1 {
        out.push(lo);
        proof {
            assert(out@[0] == cast(lo as int));
            assert(out@.contains(cast(lo as int)));
        }
        return out;
    }
    let mid: usize = lo + (hi - lo) / 2;
    let a: Vec<usize> = sort_keys(keys, lo, mid);
    let b: Vec<usize> = sort_keys(keys, mid, hi);
    let mut p: usize = 0;
    let mut q: usize = 0;
    while p < a.len() || q < b.len()
        invariant
            lo < mid < hi <= keys@.len(),
            forall|i: int, j: int| 0 <= i < keys@.len() && 0 <= j < keys@.len() && i != j ==> keys@[i]@ != keys@[j]@,
            ordered(a@, keys@, lo as int, mid as int),
            ordered(b@, keys@, mid as int, hi as int),
            p <= a@.len(),
            q <= b@.len(),
            out@.len() == p + q,
            forall|i: int| 0 <= i < out@.len() ==> lo <= #[trigger] out@[i] < hi,
            forall|i: int, j: int| 0 <= i < j < out@.len() ==> bytes_less(keys@[(#[trigger] out@[i]) as int]@, keys@[(#[trigger] out@[j]) as int]@),
            forall|i: int, k: int| 0 <= i < out@.len() && p <= k < a@.len() ==> bytes_less(keys@[(#[trigger] out@[i]) as int]@, keys@[(#[trigger] a@[k]) as int]@),
            forall|i: int, k: int| 0 <= i < out@.len() && q <= k < b@.len() ==> bytes_less(keys@[(#[trigger] out@[i]) as int]@, keys@[(#[trigger] b@[k]) as int]@),
            forall|k: int| 0 <= k < p ==> out@.contains(#[trigger] a@[k]),
            forall|k: int| 0 <= k < q ==> out@.contains(#[trigger] b@[k]),
        decreases a@.len() - p + b@.len() - q,
    {
        let left: bool = if p < a.len() {
            if q < b.len() {
                comes_before(keys[a[p]].as_slice(), keys[b[q]].as_slice())
            } else {
                true
            }
        } else {
            false
        };
        proof {
            if p < a@.len() && q < b@.len() {
                let (x, y) = (a@[p as int] as int, b@[q as int] as int);
                lemma_bytes_total(keys@[x]@, keys@[y]@);
            }
        }
        let ghost was = out@;
        let e: usize = if left {
            a[p]
        } else {
            b[q]
        };
        out.push(e);
        proof {
            assert forall|x: usize| #[trigger] out@.contains(x) <==> was.contains(x) || x == e by {
                crate::space::lemma_push_contains(was, e, x);
            }
            if left {
                assert forall|i: int, k: int| 0 <= i < out@.len() && q <= k < b@.len() implies bytes_less(keys@[(#[trigger] out@[i]) as int]@, keys@[(#[trigger] b@[k]) as int]@) by {
                    if i == was.len() && k > q {
                        lemma_bytes_less_trans(keys@[e as int]@, keys@[b@[q as int] as int]@, keys@[b@[k] as int]@);
                    }
                }
            } else {
                assert forall|i: int, k: int| 0 <= i < out@.len() && p <= k < a@.len() implies bytes_less(keys@[(#[trigger] out@[i]) as int]@, keys@[(#[trigger] a@[k]) as int]@) by {
                    if i == was.len() && k > p {
                        lemma_bytes_less_trans(keys@[e as int]@, keys@[a@[p as int] as int]@, keys@[a@[k] as int]@);
                    }
                }
            }
        }
        if left {
            p = p + 1;
        } else {
            q = q + 1;
        }
    }
    proof {
        assert forall|x: int| lo <= x < hi implies out@.contains(#[trigger] cast(x)) by {
            if x < mid {
                let k = a@.index_of(cast(x));
                assert(a@.contains(cast(x)));
                assert(out@.contains(a@[k]));
            } else {
                let k = b@.index_of(cast(x));
                assert(b@.contains(cast(x)));
                assert(out@.contains(b@[k]));
            }
        }
    }
    out
}

/// An inverted index over a range of heap blocks.
pub struct Segment {
    meta: SegmentMeta,
    /// Page directory: line-pointer count per block from `first_block`.
    widths: Vec<u16>,
    dict: fst::Map<Vec<u8>>,
    /// Postings area, followed by `TAIL_PADDING` zero bytes.
    postings: Vec<u8>,
    /// One bit for each line pointer: the indexed tuples.
    docs: Vec<u64>,
    /// Derived from `widths` at load.
    spaces: SpaceTable,
}

impl Segment {
    /// What the segment covers and how much it holds.
    pub closed spec fn spec_meta(&self) -> SegmentMeta {
        self.meta
    }

    /// The page directory.
    pub closed spec fn dir(&self) -> Widths {
        Widths { first: self.meta.first_block as int, widths: self.widths@ }
    }

    /// All of the dictionary, grams too.
    pub closed spec fn stored(&self) -> Map<Seq<u8>, u64> {
        dict_contents(self.dict)->0
    }

    /// Whether the key is only that of a gram.
    pub open spec fn hides(&self, k: Seq<u8>) -> bool {
        self.spec_meta().grams && is_gram_key(k)
    }

    /// The dictionary values of the tuples' own terms.
    pub closed spec fn values(&self) -> Map<Seq<u8>, u64> {
        Map::new(|k: Seq<u8>| self.stored().dom().contains(k) && !self.hides(k), |k: Seq<u8>| self.stored()[k])
    }

    /// Whether `t`, a term or a gram, is stored of tuple `tid`.
    pub open spec fn stores(&self, t: Seq<char>, tid: Tid) -> bool {
        self.stored().dom().contains(encode_utf8(t)) && term_tids(self.stored()[encode_utf8(t)], self.area(), self.dir()).contains(tid)
    }

    /// With grams, each gram of a tuple's terms is stored of it, and no other.
    pub open spec fn grams_ok(&self) -> bool {
        self.spec_meta().grams ==> {
            &&& forall|g: Seq<char>, tid: Tid| is_gram(g) ==> (#[trigger] self.stores(g, tid) <==> gram_among(self.terms_at(tid), g))
            &&& forall|t: Seq<char>, tid: Tid| #[trigger] self.has(t, tid) ==> gram_ready(t)
        }
    }

    /// The postings area.
    pub closed spec fn area(&self) -> Seq<u8> {
        self.postings@
    }

    /// The bits of the indexed tuples.
    pub closed spec fn doc_words(&self) -> Seq<u64> {
        self.docs@
    }

    /// Whether tuple `tid` was indexed, with terms or without.
    pub open spec fn indexed(&self, tid: Tid) -> bool {
        self.dir().holds(tid) && bit(self.doc_words(), self.dir().tid_bit(tid))
    }

    /// The dictionary's bytes.
    pub closed spec fn table(&self) -> Seq<u8> {
        dict_bytes(self.dict)
    }

    /// Every dictionary value names whole postings of indexed tuples that the
    /// directory knows, and every key is a term.
    pub closed spec fn wf(&self) -> bool {
        &&& self.spaces.wf()
        &&& self.spaces.dir() == self.dir()
        &&& self.dir().valid()
        &&& self.meta.first_block + self.widths@.len() <= self.meta.end_block
        &&& forall|i: int| 0 <= i < self.widths@.len() ==> #[trigger] self.widths@[i] <= 512
        &&& self.widths@.len() * 512 + 0x1_0000 <= usize::MAX
        &&& bits_countable(self.postings@)
        &&& dict_contents(self.dict) is Some
        &&& forall|k: Seq<u8>| #[trigger] self.stored().dom().contains(k) ==> term_ok(self.stored()[k], self.postings@, self.dir())
        &&& forall|k: Seq<u8>| #[trigger] self.stored().dom().contains(k) ==> exists|t: Seq<char>| encode_utf8(t) == k
        &&& self.grams_ok()
        &&& dict_bytes(self.dict).len() <= usize::MAX
        &&& self.docs@.len() == doc_word_count(self.widths@)
        &&& forall|t: Seq<char>, tid: Tid| #[trigger] self.has(t, tid) ==> self.indexed(tid)
        &&& self.postings@.len() >= 16
        &&& forall|i: int| self.postings@.len() - 16 <= i < self.postings@.len() ==> #[trigger] self.postings@[i] == 0
    }

    /// Whether tuple `tid` has the term `t`.
    pub open spec fn has(&self, t: Seq<char>, tid: Tid) -> bool {
        self.values().dom().contains(encode_utf8(t)) && term_tids(self.values()[encode_utf8(t)], self.area(), self.dir()).contains(tid)
    }

    /// The terms of tuple `tid`.
    pub open spec fn terms_at(&self, tid: Tid) -> Set<Seq<char>> {
        Set::new(|t: Seq<char>| self.has(t, tid))
    }

    /// The segment holds exactly these documents.
    pub open spec fn is_of(&self, docs: Seq<DocTerms>) -> bool {
        &&& forall|t: Seq<char>, tid: Tid| #[trigger] self.has(t, tid) <==> doc_has(docs, t, tid)
        &&& forall|tid: Tid| #[trigger] self.indexed(tid) <==> doc_added(docs, tid)
    }
}

impl SegmentBuilder {
    /// The segment of the documents added.
    pub fn finish(self) -> (r: Segment)
        requires
            self.wf(),
        ensures
            r.wf(),
            r.is_of(self.docs()),
            r.spec_meta().first_block == self.range().0,
            r.spec_meta().end_block == self.ends(),
            r.spec_meta().doc_count == self.docs().len(),
            r.spec_meta().grams == self.spec_grams(),
            r.spec_meta().posting_count == distinct_sum(self.docs(), self.docs().len() as int),
            forall|i: int| 0 <= i < self.docs().len() ==> r.dir().holds((#[trigger] self.docs()[i]).0),
            forall|g: Seq<char>, tid: Tid| is_gram(g) && self.spec_grams() ==> (#[trigger] r.stores(g, tid) <==> doc_has_gram(self.docs(), g, tid)),
    {
        self.finish_with_stats().0
    }

    /// Like [`finish`](Self::finish), also returning each term's size, in term
    /// order.
    pub fn finish_with_stats(self) -> (r: (Segment, Vec<TermSize>))
        requires
            self.wf(),
        ensures
            r.0.wf(),
            r.0.is_of(self.docs()),
            r.0.spec_meta().first_block == self.range().0,
            r.0.spec_meta().end_block == self.ends(),
            r.0.spec_meta().doc_count == self.docs().len(),
            r.0.spec_meta().grams == self.spec_grams(),
            r.0.spec_meta().posting_count == distinct_sum(self.docs(), self.docs().len() as int),
            r.0.spec_meta().term_count == r.1@.len(),
            exists|ts: Seq<Seq<char>>| #[trigger] are_sizes(r.1@, ts, r.0),
            forall|i: int| 0 <= i < self.docs().len() ==> r.0.dir().holds((#[trigger] self.docs()[i]).0),
            forall|g: Seq<char>, tid: Tid| is_gram(g) && self.spec_grams() ==> (#[trigger] r.0.stores(g, tid) <==> doc_has_gram(self.docs(), g, tid)),
    {
        let ghost w = self.dir();
        let ghost names = self.terms.names();
        let n: usize = self.terms.len();
        let mut keys: Vec<Vec<u8>> = Vec::new();
        while keys.len() < n
            invariant
                self.terms.wf(),
                names == self.terms.names(),
                n == names.len(),
                keys@.len() <= n,
                forall|i: int| 0 <= i < keys@.len() ==> (#[trigger] keys@[i])@ == encode_utf8(names[i]),
            decreases n - keys@.len(),
        {
            let i: usize = keys.len();
            keys.push(vstd::slice::slice_to_vec(self.terms.name(i).as_str().as_bytes()));
        }
        proof {
            self.terms.lemma_distinct();
            assert forall|i: int, j: int| 0 <= i < keys@.len() && 0 <= j < keys@.len() && i != j implies keys@[i]@ != keys@[j]@ by {
                if keys@[i]@ == keys@[j]@ {
                    lemma_encode_injective(names[i], names[j]);
                }
            }
        }
        let order: Vec<usize> = sort_keys(&keys, 0, n);
        let dir: PageDir<'_> = PageDir::new(self.first_block, self.widths.as_slice());
        let mut enc: Encoder = Encoder::new();
        let mut area: Vec<u8> = Vec::new();
        let mut entries: Vec<(Vec<u8>, u64)> = Vec::new();
        let mut sizes: Vec<TermSize> = Vec::new();
        let ghost mut used: int = 0;
        let mut k: usize = 0;
        proof {
            assert forall|b: int| #[trigger] w.width(b) <= 512 by {
                if w.first <= b < w.first + w.widths.len() {
                    assert(self.widths@[b - w.first] <= MAX_OFFSET);
                }
            }
            lemma_used_bound(self.postings@, order@, 0);
        }
        while k < n
            invariant
                self.wf(),
                w == self.dir(),
                dir@ == w,
                names == self.terms.names(),
                n == names.len(),
                n == keys@.len(),
                n == self.postings@.len(),
                k <= n,
                ordered(order@, keys@, 0, n as int),
                forall|i: int| 0 <= i < keys@.len() ==> (#[trigger] keys@[i])@ == encode_utf8(names[i]),
                forall|b: int| #[trigger] w.width(b) <= 512,
                entries@.len() == k,
                sizes@.len() == k,
                forall|i: int| 0 <= i < k ==> {
                    &&& (#[trigger] sizes@[i]).stats.terms == 1
                    &&& sizes@[i].stats.postings == self.postings@[order@[i] as int]@.len()
                    &&& entries@[i].1 as int / payload_limit() == tag_of(sizes@[i].encoding)
                    &&& sizes@[i].encoding == Encoding::Singleton ==> sizes@[i].stats.bytes == 0
                },
                bytes_sum(sizes@, k as int) == area@.len(),
                forall|i: int| 0 <= i < k ==> {
                    &&& (#[trigger] entries@[i]).0@ == keys@[order@[i] as int]@
                    &&& term_ok(entries@[i].1, area@, w)
                    &&& term_tids(entries@[i].1, area@, w) == self.postings@[order@[i] as int]@.to_set()
                },
                used == picked_lens(self.postings@, order@, k as int),
                area@.len() <= 17 * used + 60 * k,
            decreases n - k,
        {
            let id: usize = order[k];
            let tids: &Vec<Tid> = &self.postings[id];
            proof {
                assert(list_ok(self.postings@[id as int]@, names[id as int], self.kept@));
                lemma_list(tids@, names[id as int], self.kept@, w, self.first_block as int, self.end_block as int);
                lemma_used_bound(self.postings@, order@, k as int + 1);
                lemma_picked_total(self.postings@, order@, keys@, n as int, k as int + 1);
                lemma_count_le_sum(self.postings@, names, self.kept@, n as int);
            }
            let ghost before = area@;
            let e: Encoded = enc.encode_term(tids.as_slice(), dir, &mut area);
            let ghost was = entries@;
            let ghost sized = sizes@;
            entries.push((vstd::slice::slice_to_vec(keys[id].as_slice()), e.value));
            sizes.push(TermSize { encoding: e.encoding, stats: ClassStats { terms: 1, postings: tids.len() as u64, bytes: e.bytes as u64 } });
            proof {
                used = used + tids@.len();
                lemma_bytes_sum_push(sized, sizes@[k as int], k as int);
                assert(sizes@ =~= sized.push(sizes@[k as int]));
                assert forall|i: int| 0 <= i < k + 1 implies {
                    &&& (#[trigger] sizes@[i]).stats.terms == 1
                    &&& sizes@[i].stats.postings == self.postings@[order@[i] as int]@.len()
                    &&& entries@[i].1 as int / payload_limit() == tag_of(sizes@[i].encoding)
                    &&& sizes@[i].encoding == Encoding::Singleton ==> sizes@[i].stats.bytes == 0
                } by {
                    if i < k {
                        assert(sizes@[i] == sized[i]);
                        assert(entries@[i] == was[i]);
                    }
                }
                assert forall|i: int| 0 <= i < k + 1 implies {
                    &&& (#[trigger] entries@[i]).0@ == keys@[order@[i] as int]@
                    &&& term_ok(entries@[i].1, area@, w)
                    &&& term_tids(entries@[i].1, area@, w) == self.postings@[order@[i] as int]@.to_set()
                } by {
                    if i < k {
                        assert(entries@[i] == was[i]);
                        lemma_term_extend(entries@[i].1, before, area@, w);
                    }
                }
            }
            k = k + 1;
        }
        let ghost bare = area@;
        let mut pad: usize = 0;
        while pad < TAIL_PADDING
            invariant
                pad <= 16,
                area@.len() == bare.len() + pad,
                forall|i: int| 0 <= i < bare.len() ==> area@[i] == bare[i],
                forall|i: int| bare.len() <= i < area@.len() ==> #[trigger] area@[i] == 0,
            decreases 16 - pad,
        {
            area.push(0);
            pad = pad + 1;
        }
        proof {
            assert(embeds(bare, area@, 0));
            assert forall|i: int, j: int| 0 <= i < j < entries@.len() implies bytes_less((#[trigger] entries@[i]).0@, (#[trigger] entries@[j]).0@) by {
                assert(bytes_less(keys@[order@[i] as int]@, keys@[order@[j] as int]@));
            }
            lemma_picked_total(self.postings@, order@, keys@, n as int, n as int);
            lemma_count_le_sum(self.postings@, names, self.kept@, n as int);
        }
        let dict: fst::Map<Vec<u8>> = match dict_build(&entries) {
            Ok(d) => d,
            Err(_) => vstd::pervasive::unreached(),
        };
        let table_len: usize = dict_as_bytes(&dict).len();
        let spaces: SpaceTable = SpaceTable::new(dir);
        proof {
            assert forall|i: int| 0 <= i < self.tids@.len() implies w.holds(#[trigger] self.tids@[i]) by {
                assert(self.tids@[i] == self.kept@[i].0);
            }
        }
        let bits: Vec<u64> = doc_bits(&self.tids, self.first_block, &self.widths);
        let meta: SegmentMeta = SegmentMeta {
            first_block: self.first_block,
            end_block: if self.open {
                self.first_block + self.widths.len() as u32
            } else {
                self.end_block
            },
            doc_count: self.doc_count,
            term_count: n as u64,
            posting_count: self.posting_count,
            grams: self.grams,
        };
        let ghost docs = self.kept@;
        let seg: Segment = Segment { meta, widths: self.widths, dict, postings: area, docs: bits, spaces };
        proof {
            let c = seg.stored();
            assert(seg.dir() == w);
            assert forall|tid: Tid| #[trigger] seg.indexed(tid) <==> doc_added(docs, tid) by {
                if seg.indexed(tid) {
                    assert(self.tids@.contains(tid));
                    let i = self.tids@.index_of(tid);
                    assert(docs[i].0 == tid);
                }
                if doc_added(docs, tid) {
                    let i = choose|i: int| 0 <= i < docs.len() && (#[trigger] docs[i]).0 == tid;
                    assert(self.tids@[i] == tid);
                    assert(self.tids@.contains(tid));
                }
            }
            assert forall|key: Seq<u8>| #[trigger] c.dom().contains(key) implies term_ok(c[key], seg.postings@, w) && exists|t: Seq<char>| encode_utf8(t) == key by {
                let i = choose|i: int| 0 <= i < entries@.len() && (#[trigger] entries@[i]).0@ == key;
                lemma_term_extend(entries@[i].1, bare, area@, w);
                assert(encode_utf8(names[order@[i] as int]) == key);
            }
            assert forall|t: Seq<char>, tid: Tid| #[trigger] seg.stores(t, tid) <==> doc_has(docs, t, tid) by {
                let key = encode_utf8(t);
                if c.dom().contains(key) {
                    let i = choose|i: int| 0 <= i < entries@.len() && (#[trigger] entries@[i]).0@ == key;
                    let id = order@[i] as int;
                    lemma_encode_injective(names[id], t);
                    lemma_term_extend(entries@[i].1, bare, area@, w);
                    assert(list_ok(self.postings@[id]@, names[id], docs));
                    assert(self.postings@[id]@.contains(tid) <==> doc_has(docs, t, tid));
                } else if doc_has(docs, t, tid) {
                    assert(names.contains(t));
                    let id = names.index_of(t);
                    assert(order@.contains(cast(id)));
                    let i = order@.index_of(cast(id));
                    assert(entries@[i].0@ == key);
                }
            }
            assert forall|t: Seq<char>, tid: Tid| #[trigger] seg.has(t, tid) implies seg.indexed(tid) by {
                assert(seg.stores(t, tid));
                let i = choose|i: int| 0 <= i < docs.len() && (#[trigger] docs[i]).0 == tid && docs[i].1.contains(t);
                assert(doc_added(docs, tid));
            }
            let ts = Seq::new(n as nat, |i: int| names[order@[i] as int]);
            assert forall|i: int| 0 <= i < ts.len() implies is_size(sizes@[i], #[trigger] ts[i], seg) by {
                let id = order@[i] as int;
                let list = self.postings@[id]@;
                assert(entries@[i].0@ == encode_utf8(ts[i]));
                assert(c[entries@[i].0@] == entries@[i].1);
                lemma_term_extend(entries@[i].1, bare, area@, w);
                assert(list_ok(list, names[id], docs));
                lemma_list(list, names[id], docs, w, self.first_block as int, self.end_block as int);
                assert forall|a: int, b: int| 0 <= a < b < list.len() implies list[a] != list[b] by {
                    assert(list[a].before(list[b]));
                }
                list.unique_seq_to_set();
            }
            assert forall|key: Seq<u8>| #[trigger] seg.stored().dom().contains(key) <==> exists|i: int| 0 <= i < ts.len() && encode_utf8(
                #[trigger] ts[i],
            ) == key by {
                if seg.stored().dom().contains(key) {
                    let i = choose|i: int| 0 <= i < entries@.len() && (#[trigger] entries@[i]).0@ == key;
                    assert(encode_utf8(ts[i]) == key);
                }
                if exists|i: int| 0 <= i < ts.len() && encode_utf8(#[trigger] ts[i]) == key {
                    let i = choose|i: int| 0 <= i < ts.len() && encode_utf8(#[trigger] ts[i]) == key;
                    assert(entries@[i].0@ == key);
                }
            }
            assert forall|i: int, j: int| 0 <= i < j < ts.len() implies bytes_less(encode_utf8(#[trigger] ts[i]), encode_utf8(#[trigger] ts[j])) by {
                assert(bytes_less(keys@[order@[i] as int]@, keys@[order@[j] as int]@));
            }
            assert(are_sizes(sizes@, ts, seg));
            lemma_real_docs(seg, self.grams, self.docs@, docs);
        }
        (seg, sizes)
    }
}

/// A segment that stores what is kept of documents has their terms, and their
/// grams where they are kept.
proof fn lemma_real_docs(seg: Segment, grams: bool, docs: Seq<DocTerms>, kept: Seq<DocTerms>)
    requires
        seg.spec_meta().grams == grams,
        docs.len() == kept.len(),
        forall|i: int|
            0 <= i < docs.len() ==> {
                &&& (#[trigger] docs[i]).0 == kept[i].0
                &&& kept[i].1 == stored_terms(grams, docs[i].1)
                &&& forall|t: Seq<char>| #[trigger] docs[i].1.contains(t) ==> takes(grams, t)
            },
        forall|t: Seq<char>, tid: Tid| #[trigger] seg.stores(t, tid) <==> doc_has(kept, t, tid),
        forall|tid: Tid| #[trigger] seg.indexed(tid) <==> doc_added(kept, tid),
    ensures
        seg.is_of(docs),
        seg.grams_ok(),
        forall|g: Seq<char>, tid: Tid| is_gram(g) && grams ==> (#[trigger] seg.stores(g, tid) <==> doc_has_gram(docs, g, tid)),
{
    assert forall|t: Seq<char>, tid: Tid| #[trigger] seg.has(t, tid) <==> doc_has(docs, t, tid) by {
        lemma_gram_key(t);
        assert(seg.has(t, tid) <==> seg.stores(t, tid) && !(grams && is_gram(t)));
        if seg.has(t, tid) {
            let i = choose|i: int| 0 <= i < kept.len() && (#[trigger] kept[i]).0 == tid && kept[i].1.contains(t);
            assert(docs[i].0 == tid);
            if !docs[i].1.contains(t) {
                let x = choose|x: Seq<char>| #[trigger] docs[i].1.contains(x) && wide_grams_of(x).contains(t);
                lemma_wide_is_gram(x, t);
            }
        }
        if doc_has(docs, t, tid) {
            let i = choose|i: int| 0 <= i < docs.len() && (#[trigger] docs[i]).0 == tid && docs[i].1.contains(t);
            assert(kept[i].0 == tid && kept[i].1.contains(t));
            assert(takes(grams, t));
        }
    }
    assert forall|tid: Tid| #[trigger] seg.indexed(tid) <==> doc_added(docs, tid) by {
        if doc_added(kept, tid) {
            let i = choose|i: int| 0 <= i < kept.len() && (#[trigger] kept[i]).0 == tid;
            assert(docs[i].0 == tid);
        }
        if doc_added(docs, tid) {
            let i = choose|i: int| 0 <= i < docs.len() && (#[trigger] docs[i]).0 == tid;
            assert(kept[i].0 == tid);
        }
    }
    assert forall|g: Seq<char>, tid: Tid| is_gram(g) && grams implies (#[trigger] seg.stores(g, tid) <==> doc_has_gram(docs, g, tid)) by {
        if seg.stores(g, tid) {
            let i = choose|i: int| 0 <= i < kept.len() && (#[trigger] kept[i]).0 == tid && kept[i].1.contains(g);
            assert(docs[i].0 == tid);
            if docs[i].1.contains(g) {
                assert(takes(grams, g));
            }
            let x = choose|x: Seq<char>| #[trigger] docs[i].1.contains(x) && wide_grams_of(x).contains(g);
            assert(doc_has(docs, x, tid));
        }
        if doc_has_gram(docs, g, tid) {
            let x = choose|x: Seq<char>| #[trigger] doc_has(docs, x, tid) && wide_grams_of(x).contains(g);
            let i = choose|i: int| 0 <= i < docs.len() && (#[trigger] docs[i]).0 == tid && docs[i].1.contains(x);
            assert(gram_among(docs[i].1, g));
            assert(kept[i].0 == tid && kept[i].1.contains(g));
        }
    }
    assert forall|t: Seq<char>, tid: Tid| #[trigger] seg.has(t, tid) implies takes(grams, t) by {
        let i = choose|i: int| 0 <= i < docs.len() && (#[trigger] docs[i]).0 == tid && docs[i].1.contains(t);
    }
    assert forall|g: Seq<char>, tid: Tid| is_gram(g) && grams implies (#[trigger] seg.stores(g, tid) <==> gram_among(seg.terms_at(tid), g)) by {
        assert(seg.stores(g, tid) <==> doc_has_gram(docs, g, tid));
        if doc_has_gram(docs, g, tid) {
            let x = choose|x: Seq<char>| #[trigger] doc_has(docs, x, tid) && wide_grams_of(x).contains(g);
            assert(seg.has(x, tid));
            assert(seg.terms_at(tid).contains(x));
        }
        if gram_among(seg.terms_at(tid), g) {
            let x = choose|x: Seq<char>| #[trigger] seg.terms_at(tid).contains(x) && wide_grams_of(x).contains(g);
            assert(seg.has(x, tid));
            assert(doc_has(docs, x, tid));
        }
    }
}

/// A bitmap of the tuples `tids`.
fn doc_bits(tids: &Vec<Tid>, first: u32, widths: &Vec<u16>) -> (r: Vec<u64>)
    requires
        first + widths@.len() <= u32::MAX,
        forall|i: int| 0 <= i < widths@.len() ==> #[trigger] widths@[i] <= 512,
        widths@.len() * 512 + 0x1_0000 <= usize::MAX,
        forall|i: int| 0 <= i < tids@.len() ==> (Widths { first: first as int, widths: widths@ }).holds(#[trigger] tids@[i]),
    ensures
        r@.len() == doc_word_count(widths@),
        forall|t: Tid|
            (Widths { first: first as int, widths: widths@ }).holds(t) ==> (bit(r@, (Widths { first: first as int, widths: widths@ }).tid_bit(t))
                <==> #[trigger] tids@.contains(t)),
{
    let ghost d = Widths { first: first as int, widths: widths@ };
    let mut below: Vec<usize> = Vec::new();
    let mut sum: usize = 0;
    let mut i: usize = 0;
    while i < widths.len()
        invariant
            i <= widths@.len(),
            below@.len() == i,
            sum == total(widths@, i as int),
            sum <= i * 512,
            widths@.len() * 512 + 0x1_0000 <= usize::MAX,
            forall|k: int| 0 <= k < widths@.len() ==> #[trigger] widths@[k] <= 512,
            forall|k: int| 0 <= k < i ==> #[trigger] below@[k] == total(widths@, k),
        decreases widths@.len() - i,
    {
        below.push(sum);
        sum = sum + widths[i] as usize;
        i = i + 1;
    }
    let n: usize = (sum + 63) / 64;
    let mut out: Vec<u64> = Vec::new();
    while out.len() < n
        invariant
            out@.len() <= n,
            forall|k: int| 0 <= k < out@.len() ==> #[trigger] out@[k] == 0,
        decreases n - out@.len(),
    {
        out.push(0);
    }
    proof {
        assert forall|x: int| !#[trigger] bit(out@, x) by {
            if 0 <= x < out@.len() * 64 {
                assert(out@[x / 64] == 0);
                words::lemma_word_zero(0);
            }
        }
    }
    let mut j: usize = 0;
    while j < tids.len()
        invariant
            j <= tids@.len(),
            d == (Widths { first: first as int, widths: widths@ }),
            first + widths@.len() <= u32::MAX,
            widths@.len() * 512 + 0x1_0000 <= usize::MAX,
            forall|k: int| 0 <= k < widths@.len() ==> #[trigger] widths@[k] <= 512,
            below@.len() == widths@.len(),
            forall|k: int| 0 <= k < widths@.len() ==> #[trigger] below@[k] == total(widths@, k),
            forall|k: int| 0 <= k < tids@.len() ==> d.holds(#[trigger] tids@[k]),
            out@.len() == doc_word_count(widths@),
            forall|t: Tid| d.holds(t) ==> (#[trigger] bit(out@, d.tid_bit(t)) <==> tids@.take(j as int).contains(t)),
        decreases tids@.len() - j,
    {
        let tid: Tid = tids[j];
        let ghost was = out@;
        proof {
            assert(d.holds(tids@[j as int]));
            let at = tid.block - first;
            assert(d.below(tid.block as int) == total(widths@, at));
            lemma_total_mono(widths@, at + 1, widths@.len() as int);
            lemma_total_mono(widths@, 0, at);
            lemma_total_bound(d, at);
        }
        let b: usize = below[(tid.block - first) as usize] + (tid.offset - 1) as usize;
        words::set_bit(&mut out, b);
        proof {
            assert(tids@.take(j + 1) =~= tids@.take(j as int).push(tid));
            assert forall|t: Tid| d.holds(t) implies (#[trigger] bit(out@, d.tid_bit(t)) <==> tids@.take(j + 1).contains(t)) by {
                crate::space::lemma_push_contains(tids@.take(j as int), tid, t);
                assert(bit(out@, d.tid_bit(t)) == (bit(was, d.tid_bit(t)) || d.tid_bit(t) == b));
                if d.tid_bit(t) == b {
                    lemma_tid_bit_distinct(d, tid, t);
                }
            }
        }
        j = j + 1;
    }
    proof {
        assert(tids@.take(j as int) =~= tids@);
        assert forall|t: Tid| d.holds(t) implies (bit(out@, d.tid_bit(t)) <==> #[trigger] tids@.contains(t)) by {
        }
    }
    out
}

/// Whether the term is listed.
spec fn term_listed(list: Seq<(String, u64)>, t: Seq<char>) -> bool {
    exists|i: int| 0 <= i < list.len() && (#[trigger] list[i]).0@ == t
}

/// Entries of a dictionary, among them those of every term that the pattern
/// accepts.
spec fn lists_accepted(c: Map<Seq<u8>, u64>, p: PlanView, s: Seq<(Vec<u8>, u64)>) -> bool {
    &&& forall|i: int| 0 <= i < s.len() ==> c.dom().contains((#[trigger] s[i]).0@) && c[s[i].0@] == s[i].1
    &&& forall|t: Seq<char>| #[trigger] c.dom().contains(encode_utf8(t)) && plan_accepts(p, t) ==> exists|i: int| 0 <= i < s.len() && (#[trigger] s[i]).0@
        == encode_utf8(t)
}

/// The lengths of the first `n` lists picked by `order`, summed.
spec fn picked_lens(p: Seq<Vec<Tid>>, order: Seq<usize>, n: int) -> int
    decreases n,
{
    if n <= 0 {
        0
    } else {
        picked_lens(p, order, n - 1) + p[order[n - 1] as int]@.len()
    }
}

proof fn lemma_used_bound(p: Seq<Vec<Tid>>, order: Seq<usize>, n: int)
    ensures
        picked_lens(p, order, n) >= 0,
    decreases n,
{
    if n > 0 {
        lemma_used_bound(p, order, n - 1);
    }
}

/// Lists picked once each are no more than all of them.
proof fn lemma_picked_total(p: Seq<Vec<Tid>>, order: Seq<usize>, keys: Seq<Vec<u8>>, n: int, k: int)
    requires
        n == p.len(),
        ordered(order, keys, 0, n),
        0 <= k <= n,
        n <= keys.len(),
    ensures
        picked_lens(p, order, k) <= sum_lens(p, n),
{
    lemma_picked_set(p, order, keys, n, k, n);
}

/// The picked lists below `m`, summed.
spec fn picked_below(p: Seq<Vec<Tid>>, order: Seq<usize>, k: int, m: int) -> int
    decreases m,
{
    if m <= 0 {
        0
    } else {
        picked_below(p, order, k, m - 1) + if is_picked(order, k, m - 1) {
            p[m - 1]@.len() as int
        } else {
            0
        }
    }
}

spec fn is_picked(order: Seq<usize>, k: int, x: int) -> bool {
    exists|i: int| 0 <= i < k && #[trigger] order[i] == x
}

proof fn lemma_picked_set(p: Seq<Vec<Tid>>, order: Seq<usize>, keys: Seq<Vec<u8>>, n: int, k: int, m: int)
    requires
        n == p.len(),
        ordered(order, keys, 0, n),
        0 <= k <= n,
        n <= keys.len(),
        m == n,
    ensures
        picked_lens(p, order, k) == picked_below(p, order, k, n),
        picked_below(p, order, k, n) <= sum_lens(p, n),
    decreases k,
{
    lemma_below_le(p, order, k, n);
    if k > 0 {
        lemma_picked_set(p, order, keys, n, k - 1, n);
        let x = order[k - 1] as int;
        assert(!is_picked(order, k - 1, x)) by {
            if is_picked(order, k - 1, x) {
                let i = choose|i: int| 0 <= i < k - 1 && #[trigger] order[i] == x;
                assert(bytes_less(keys[order[i] as int]@, keys[order[k - 1] as int]@));
                lemma_bytes_total(keys[x]@, keys[x]@);
            }
        }
        lemma_pick_one(p, order, k, n);
    } else {
        lemma_pick_none(p, order, n);
    }
}

proof fn lemma_pick_none(p: Seq<Vec<Tid>>, order: Seq<usize>, m: int)
    ensures
        picked_below(p, order, 0, m) == 0,
    decreases m,
{
    if m > 0 {
        lemma_pick_none(p, order, m - 1);
    }
}

proof fn lemma_below_le(p: Seq<Vec<Tid>>, order: Seq<usize>, k: int, m: int)
    ensures
        0 <= picked_below(p, order, k, m) <= sum_lens(p, m),
    decreases m,
{
    if m > 0 {
        lemma_below_le(p, order, k, m - 1);
    }
}

proof fn lemma_pick_one(p: Seq<Vec<Tid>>, order: Seq<usize>, k: int, m: int)
    requires
        k > 0,
        !is_picked(order, k - 1, order[k - 1] as int),
    ensures
        picked_below(p, order, k, m) == picked_below(p, order, k - 1, m) + if order[k - 1] < m { p[order[k - 1] as int]@.len() as int } else { 0 },
    decreases m,
{
    if m > 0 {
        lemma_pick_one(p, order, k, m - 1);
        let y = m - 1;
        let x = order[k - 1] as int;
        if is_picked(order, k - 1, y) {
            let i = choose|i: int| 0 <= i < k - 1 && #[trigger] order[i] == y;
            assert(order[i] == y);
            assert(is_picked(order, k, y));
        }
        if y == x {
            assert(order[k - 1] == y);
            assert(is_picked(order, k, y));
        }
        if is_picked(order, k, y) && y != x {
            let i = choose|i: int| 0 <= i < k && #[trigger] order[i] == y;
            assert(i < k - 1);
            assert(is_picked(order, k - 1, y));
        }
    }
}

/// Every list has an entry, so there are no more lists than entries.
proof fn lemma_count_le_sum(p: Seq<Vec<Tid>>, names: Seq<Seq<char>>, docs: Seq<DocTerms>, n: int)
    requires
        0 <= n <= p.len(),
        forall|i: int| 0 <= i < p.len() ==> list_ok((#[trigger] p[i])@, names[i], docs),
    ensures
        n <= sum_lens(p, n),
    decreases n,
{
    if n > 0 {
        lemma_count_le_sum(p, names, docs, n - 1);
        assert(list_ok(p[n - 1]@, names[n - 1], docs));
    }
}

/// A term's tuples can be encoded.
proof fn lemma_list(list: Seq<Tid>, t: Seq<char>, docs: Seq<DocTerms>, w: Widths, first: int, end: int)
    requires
        list_ok(list, t, docs),
        forall|i: int| 0 <= i < docs.len() ==> {
            &&& (#[trigger] docs[i]).0.valid()
            &&& first <= docs[i].0.block < end
            &&& w.holds(docs[i].0)
        },
    ensures
        tids_ok(list),
        forall|i: int| 0 <= i < list.len() ==> w.holds(#[trigger] list[i]),
{
    assert forall|i: int| 0 <= i < list.len() implies (#[trigger] list[i]).valid() && w.holds(list[i]) by {
        assert(list.contains(list[i]));
        assert(doc_has(docs, t, list[i]));
        let k = choose|k: int| 0 <= k < docs.len() && (#[trigger] docs[k]).0 == list[i] && docs[k].1.contains(t);
        assert(docs[k].0.valid());
    }
    assert forall|i: int, j: int| 0 <= i < j < list.len() implies (#[trigger] list[i]).spec_key() < (#[trigger] list[j]).spec_key() by {
        assert(list[i].before(list[j]));
        assert(list[i].valid() && list[j].valid());
        crate::tid::key_preserves_order(list[i], list[j]);
    }
}

// ---------------------------------------------------------------------------
// Reading
// ---------------------------------------------------------------------------

/// A plan that can be run: no conjunction is empty.
pub open spec fn runnable(p: PlanView) -> bool
    decreases p,
{
    match p {
        PlanView::And(cs) => cs.len() >= 1 && forall|i: int| 0 <= i < cs.len() ==> runnable(#[trigger] cs[i]),
        PlanView::Or(cs) => forall|i: int| 0 <= i < cs.len() ==> runnable(#[trigger] cs[i]),
        PlanView::AndNot(a, b) => runnable(*a) && runnable(*b),
        PlanView::Recheck(a) => runnable(*a),
        _ => true,
    }
}

pub proof fn lemma_runnable_parts(cs: Seq<PlanView>)
    ensures
        runnable(PlanView::And(cs)) == (cs.len() >= 1 && forall|i: int| 0 <= i < cs.len() ==> runnable(#[trigger] cs[i])),
        runnable(PlanView::Or(cs)) == forall|i: int| 0 <= i < cs.len() ==> runnable(#[trigger] cs[i]),
{
    let (a, o) = (PlanView::And(cs), PlanView::Or(cs));
    assert(a->And_0 == cs && o->Or_0 == cs);
    assert(runnable(a) == (a->And_0.len() >= 1 && forall|i: int| 0 <= i < a->And_0.len() ==> runnable(#[trigger] a->And_0[i])));
    assert(runnable(o) == forall|i: int| 0 <= i < o->Or_0.len() ==> runnable(#[trigger] o->Or_0[i]));
}

/// A plan that can be run matches no document without terms.
pub proof fn runnable_needs_terms(p: PlanView)
    requires
        runnable(p),
    ensures
        !plan_matches(p, Set::<Seq<char>>::empty()),
    decreases p,
{
    let none = Set::<Seq<char>>::empty();
    match p {
        PlanView::And(cs) => {
            lemma_runnable_parts(cs);
            lemma_plan_parts(cs, none);
            assert(runnable(cs[0]));
            runnable_needs_terms(cs[0]);
        },
        PlanView::Or(cs) => {
            lemma_runnable_parts(cs);
            lemma_plan_parts(cs, none);
            assert forall|i: int| 0 <= i < cs.len() implies !plan_matches(#[trigger] cs[i], none) by {
                runnable_needs_terms(cs[i]);
            }
        },
        PlanView::AndNot(a, b) => {
            runnable_needs_terms(*a);
        },
        PlanView::Recheck(a) => {
            runnable_needs_terms(*a);
        },
        _ => {},
    }
}

/// Tuples on different line pointers have different bits.
proof fn lemma_tid_bit_distinct(d: Widths, a: Tid, b: Tid)
    requires
        d.holds(a),
        d.holds(b),
        d.tid_bit(a) == d.tid_bit(b),
    ensures
        a == b,
{
    lemma_below_step(d, a.block as int);
    lemma_below_step(d, b.block as int);
    if a.block < b.block {
        lemma_below_mono(d, a.block + 1, b.block as int);
    }
    if b.block < a.block {
        lemma_below_mono(d, b.block + 1, a.block as int);
    }
}

/// A tuple's bit lies in the segment-wide tuple space.
proof fn lemma_tid_bit_range(d: Widths, t: Tid)
    requires
        d.holds(t),
        forall|i: int| 0 <= i < d.widths.len() ==> #[trigger] d.widths[i] <= 512,
    ensures
        0 <= d.tid_bit(t) < d.widths.len() * 512,
{
    lemma_below_nonneg(d, t.block as int);
    lemma_total_bound(d, d.widths.len() as int);
    lemma_below_step(d, t.block as int);
    lemma_below_mono(d, t.block + 1, d.first + d.widths.len());
}

proof fn lemma_total_bound(d: Widths, n: int)
    requires
        0 <= n <= d.widths.len(),
        forall|i: int| 0 <= i < d.widths.len() ==> #[trigger] d.widths[i] <= 512,
    ensures
        crate::space::total(d.widths, n) <= n * 512,
    decreases n,
{
    if n > 0 {
        lemma_total_bound(d, n - 1);
    }
}

impl Segment {
    pub fn meta(&self) -> (r: &SegmentMeta)
        ensures
            *r == self.spec_meta(),
    {
        &self.meta
    }

    /// Bytes of the dictionary.
    pub fn dict_bytes(&self) -> (r: usize)
        ensures
            r == self.table().len(),
    {
        dict_as_bytes(&self.dict).len()
    }

    /// Bytes of the postings area.
    pub fn postings_bytes(&self) -> (r: usize)
        ensures
            r == self.area().len(),
    {
        self.postings.len()
    }

    /// Bytes of the page directory.
    pub fn page_dir_bytes(&self) -> (r: usize)
        requires
            self.wf(),
        ensures
            r == self.dir().widths.len() * 2,
    {
        self.widths.len() * 2
    }

    pub fn size_bytes(&self) -> (r: usize)
        requires
            self.wf(),
            self.table().len() + self.area().len() + self.dir().widths.len() * 2 <= usize::MAX,
        ensures
            r == self.table().len() + self.area().len() + self.dir().widths.len() * 2,
    {
        self.dict_bytes() + self.postings_bytes() + self.page_dir_bytes()
    }

    fn page_dir(&self) -> (r: PageDir<'_>)
        ensures
            r@ == self.dir(),
    {
        PageDir::new(self.meta.first_block, self.widths.as_slice())
    }

    /// The postings of a term, or of a gram.
    pub fn term(&self, term: &str) -> (r: Option<TermPostings<'_>>)
        requires
            self.wf(),
        ensures
            match r {
                Some(p) => {
                    &&& self.stored().dom().contains(encode_utf8(term@))
                    &&& p.is(self.stored()[encode_utf8(term@)], self.area())
                    &&& p.spec_doc_count() == term_tids(self.stored()[encode_utf8(term@)], self.area(), self.dir()).len()
                },
                None => !self.stored().dom().contains(encode_utf8(term@)),
            },
    {
        let key: &[u8] = term.as_bytes();
        match dict_get(&self.dict, key) {
            Some(v) => {
                assert(self.stored().dom().contains(key@));
                assert(term_ok(v, self.postings@, self.dir()));
                Some(TermPostings::from_value(v, self.postings.as_slice()))
            },
            None => None,
        }
    }

    /// Whether the key is only that of a gram.
    fn is_hidden(&self, key: &[u8]) -> (r: bool)
        ensures
            r == self.hides(key@),
    {
        self.meta.grams && key.len() > 0 && key[0] == 1
    }

    /// How many tuples have the term `term`.
    pub(crate) fn doc_freq(&self, term: &str) -> (r: u64)
        requires
            self.wf(),
        ensures
            r == if self.values().dom().contains(encode_utf8(term@)) {
                term_tids(self.values()[encode_utf8(term@)], self.area(), self.dir()).len()
            } else {
                0
            },
    {
        if self.is_hidden(term.as_bytes()) {
            return 0;
        }
        match self.term(term) {
            Some(p) => p.doc_count(),
            None => 0,
        }
    }

    /// Every term with its document frequency in this segment, in term order.
    pub fn for_each_term(&self) -> (r: Vec<(String, u64)>)
        requires
            self.wf(),
        ensures
            forall|i: int| 0 <= i < r@.len() ==> {
                let key = encode_utf8((#[trigger] r@[i]).0@);
                self.values().dom().contains(key) && r@[i].1 == term_tids(self.values()[key], self.area(), self.dir()).len()
            },
            forall|t: Seq<char>| #[trigger] self.values().dom().contains(encode_utf8(t)) ==> exists|i: int| 0 <= i < r@.len() && (#[trigger] r@[i]).0@ == t,
            forall|i: int, j: int| 0 <= i < j < r@.len() ==> bytes_less(encode_utf8((#[trigger] r@[i]).0@), encode_utf8((#[trigger] r@[j]).0@)),
    {
        let entries: Vec<(Vec<u8>, u64)> = dict_entries(&self.dict);
        let mut out: Vec<(String, u64)> = Vec::new();
        let mut i: usize = 0;
        while i < entries.len()
            invariant
                self.wf(),
                i <= entries@.len(),
                keys_ascend(entries@),
                holds_entries(self.stored(), entries@),
                forall|k: int| 0 <= k < out@.len() ==> {
                    let key = encode_utf8((#[trigger] out@[k]).0@);
                    &&& self.values().dom().contains(key)
                    &&& out@[k].1 == term_tids(self.values()[key], self.area(), self.dir()).len()
                    &&& i < entries@.len() ==> bytes_less(key, entries@[i as int].0@)
                },
                forall|k: int, t: Seq<char>|
                    0 <= k < i && (#[trigger] entries@[k]).0@ == #[trigger] encode_utf8(t) && !self.hides(encode_utf8(t)) ==> term_listed(out@, t),
                forall|a: int, b: int| 0 <= a < b < out@.len() ==> bytes_less(encode_utf8((#[trigger] out@[a]).0@), encode_utf8((#[trigger] out@[b]).0@)),
            decreases entries@.len() - i,
        {
            let ghost key = entries@[i as int].0@;
            let ghost was = out@;
            proof {
                assert(self.stored().dom().contains(key));
                assert(term_ok(entries@[i as int].1, self.postings@, self.dir()));
            }
            let bytes: &[u8] = entries[i].0.as_slice();
            if !self.is_hidden(bytes) {
                let t: String = key_term(bytes);
                let p: TermPostings<'_> = TermPostings::from_value(entries[i].1, self.postings.as_slice());
                proof {
                    let x = choose|x: Seq<char>| encode_utf8(x) == key;
                    assert(t@ == x);
                }
                out.push((t, p.doc_count()));
            }
            proof {
                assert forall|k: int, t: Seq<char>|
                    0 <= k < i + 1 && (#[trigger] entries@[k]).0@ == #[trigger] encode_utf8(t) && !self.hides(encode_utf8(t)) implies term_listed(out@, t) by {
                    if k < i {
                        let x = choose|x: int| 0 <= x < was.len() && (#[trigger] was[x]).0@ == t;
                        assert(out@[x].0@ == t);
                    } else {
                        assert(out@[was.len() as int].0@ == t);
                    }
                }
                assert forall|k: int| 0 <= k < out@.len() implies {
                    let key = encode_utf8((#[trigger] out@[k]).0@);
                    &&& self.values().dom().contains(key)
                    &&& out@[k].1 == term_tids(self.values()[key], self.area(), self.dir()).len()
                    &&& i + 1 < entries@.len() ==> bytes_less(key, entries@[i + 1].0@)
                } by {
                    if i + 1 < entries@.len() {
                        assert(bytes_less(entries@[i as int].0@, entries@[i + 1].0@));
                        if k < was.len() {
                            assert(out@[k] == was[k]);
                            lemma_bytes_less_trans(encode_utf8(was[k].0@), key, entries@[i + 1].0@);
                        }
                    } else if k < was.len() {
                        assert(out@[k] == was[k]);
                    }
                }
            }
            i = i + 1;
        }
        proof {
            assert forall|t: Seq<char>| #[trigger] self.values().dom().contains(encode_utf8(t)) implies exists|i: int| 0 <= i < out@.len() && (#[trigger] out@[i]).0@ == t by {
                let k = choose|k: int| 0 <= k < entries@.len() && (#[trigger] entries@[k]).0@ == encode_utf8(t);
                assert(entries@[k].0@ == encode_utf8(t));
                assert(term_listed(out@, t));
            }
        }
        out
    }

    /// Entries of the dictionary, among them those of every term that the
    /// pattern `p` accepts.
    fn pattern_entries(&self, p: &Plan) -> (r: Vec<(Vec<u8>, u64)>)
        requires
            self.wf(),
        ensures
            lists_accepted(self.stored(), p.view(), r@),
    {
        if let Plan::Prefix(x) = p {
            let from: &[u8] = x.as_str().as_bytes();
            let n: usize = from.len();
            if n > 0 && from[n - 1] < 255 {
                let r: Vec<(Vec<u8>, u64)> = self.entries_from(x.as_str());
                proof {
                    assert forall|t: Seq<char>| #[trigger] self.stored().dom().contains(encode_utf8(t)) && plan_accepts(p.view(), t) implies exists|i: int|
                        0 <= i < r@.len() && (#[trigger] r@[i]).0@ == encode_utf8(t) by {
                        assert(starts(t, x@));
                    }
                }
                return r;
            }
        }
        dict_entries(&self.dict)
    }

    /// Entries of the dictionary, among them those of every term that starts
    /// with `x`.
    fn entries_from(&self, x: &str) -> (r: Vec<(Vec<u8>, u64)>)
        requires
            self.wf(),
            encode_utf8(x@).len() > 0,
            encode_utf8(x@).last() < 255,
        ensures
            forall|i: int| 0 <= i < r@.len() ==> self.stored().dom().contains((#[trigger] r@[i]).0@) && self.stored()[r@[i].0@] == r@[i].1,
            forall|t: Seq<char>| #[trigger] self.stored().dom().contains(encode_utf8(t)) && starts(t, x@) ==> exists|i: int|
                0 <= i < r@.len() && (#[trigger] r@[i]).0@ == encode_utf8(t),
    {
        let from: &[u8] = x.as_bytes();
        let n: usize = from.len();
        let mut to: Vec<u8> = vstd::slice::slice_to_vec(from);
        to.set(n - 1, from[n - 1] + 1);
        let r: Vec<(Vec<u8>, u64)> = dict_range(&self.dict, from, to.as_slice());
        proof {
            assert forall|t: Seq<char>| #[trigger] self.stored().dom().contains(encode_utf8(t)) && starts(t, x@) implies exists|i: int|
                0 <= i < r@.len() && (#[trigger] r@[i]).0@ == encode_utf8(t) by {
                let at = lemma_occurs_bytes(t, x@, 0);
                lemma_prefix_range(encode_utf8(t), from@, to@);
            }
        }
        r
    }

    /// The terms that the pattern `p` accepts.
    pub(crate) fn accepted_terms(&self, p: &Plan) -> (r: Vec<String>)
        requires
            self.wf(),
        ensures
            forall|m: int| 0 <= m < r@.len() ==> plan_accepts(p.view(), (#[trigger] r@[m])@),
            forall|t: Seq<char>| #[trigger] self.values().dom().contains(encode_utf8(t)) && plan_accepts(p.view(), t) ==> strings_view(r@).contains(t),
    {
        let entries: Vec<(Vec<u8>, u64)> = self.pattern_entries(p);
        let mut out: Vec<String> = Vec::new();
        let mut i: usize = 0;
        while i < entries.len()
            invariant
                i <= entries@.len(),
                forall|m: int| 0 <= m < out@.len() ==> plan_accepts(p.view(), (#[trigger] out@[m])@),
                forall|k: int, t: Seq<char>|
                    0 <= k < i && (#[trigger] entries@[k]).0@ == #[trigger] encode_utf8(t) && !self.hides(encode_utf8(t)) && plan_accepts(p.view(), t)
                        ==> strings_view(out@).contains(t),
            decreases entries@.len() - i,
        {
            let ghost was = out@;
            let bytes: &[u8] = entries[i].0.as_slice();
            if !self.is_hidden(bytes) && may_accept(p, bytes) {
                let term: String = key_term(bytes);
                if accepts_term(p, &term) {
                    out.push(term);
                    proof {
                        assert(strings_view(out@) =~= strings_view(was).push(out@[was.len() as int]@));
                    }
                }
            }
            proof {
                assert forall|k: int, t: Seq<char>|
                    0 <= k < i + 1 && (#[trigger] entries@[k]).0@ == #[trigger] encode_utf8(t) && !self.hides(encode_utf8(t)) && plan_accepts(p.view(), t)
                    implies strings_view(out@).contains(t) by {
                    if k < i {
                        let x = strings_view(was).index_of(t);
                        assert(strings_view(out@)[x] == t);
                    } else {
                        assert(strings_view(out@)[was.len() as int] == t);
                    }
                }
            }
            i = i + 1;
        }
        proof {
            assert forall|t: Seq<char>| #[trigger] self.values().dom().contains(encode_utf8(t)) && plan_accepts(p.view(), t) implies strings_view(out@).contains(t) by {
                assert(self.stored().dom().contains(encode_utf8(t)));
                let k = choose|k: int| 0 <= k < entries@.len() && (#[trigger] entries@[k]).0@ == encode_utf8(t);
                assert(entries@[k].0@ == encode_utf8(t));
            }
        }
        out
    }

    /// The dictionary values of the terms that the pattern `p` accepts.
    fn accepted_values(&self, p: &Plan) -> (r: Vec<u64>)
        requires
            self.wf(),
        ensures
            forall|m: int| 0 <= m < r@.len() ==> self.is_accepted(p.view(), #[trigger] r@[m]),
            forall|t: Seq<char>| #[trigger] self.values().dom().contains(encode_utf8(t)) && plan_accepts(p.view(), t) ==> r@.contains(
                self.values()[encode_utf8(t)],
            ),
    {
        let entries: Vec<(Vec<u8>, u64)> = self.pattern_entries(p);
        let mut out: Vec<u64> = Vec::new();
        let mut i: usize = 0;
        while i < entries.len()
            invariant
                self.wf(),
                i <= entries@.len(),
                lists_accepted(self.stored(), p.view(), entries@),
                forall|m: int| 0 <= m < out@.len() ==> self.is_accepted(p.view(), #[trigger] out@[m]),
                forall|k: int, t: Seq<char>|
                    0 <= k < i && (#[trigger] entries@[k]).0@ == #[trigger] encode_utf8(t) && !self.hides(encode_utf8(t)) && plan_accepts(p.view(), t)
                        ==> out@.contains(entries@[k].1),
            decreases entries@.len() - i,
        {
            let ghost was = out@;
            let ghost key = entries@[i as int].0@;
            let bytes: &[u8] = entries[i].0.as_slice();
            proof {
                assert(self.stored().dom().contains(key));
                assert(exists|x: Seq<char>| encode_utf8(x) == key);
            }
            let ghost x = choose|x: Seq<char>| encode_utf8(x) == key;
            if !self.is_hidden(bytes) && may_accept(p, bytes) && accepts_term(p, &key_term(bytes)) {
                out.push(entries[i].1);
                proof {
                    assert(self.values().dom().contains(encode_utf8(x)) && plan_accepts(p.view(), x));
                    assert(self.is_accepted(p.view(), entries@[i as int].1));
                }
            }
            proof {
                assert forall|k: int, t: Seq<char>|
                    0 <= k < i + 1 && (#[trigger] entries@[k]).0@ == #[trigger] encode_utf8(t) && !self.hides(encode_utf8(t)) && plan_accepts(p.view(), t)
                    implies out@.contains(entries@[k].1) by {
                    if k < i {
                        let y = was.index_of(entries@[k].1);
                        assert(out@[y] == entries@[k].1);
                    } else {
                        lemma_encode_injective(x, t);
                        assert(out@[was.len() as int] == entries@[k].1);
                    }
                }
            }
            i = i + 1;
        }
        proof {
            assert forall|t: Seq<char>| #[trigger] self.values().dom().contains(encode_utf8(t)) && plan_accepts(p.view(), t) implies out@.contains(
                self.values()[encode_utf8(t)],
            ) by {
                assert(self.stored().dom().contains(encode_utf8(t)));
                let k = choose|k: int| 0 <= k < entries@.len() && (#[trigger] entries@[k]).0@ == encode_utf8(t);
                assert(entries@[k].0@ == encode_utf8(t));
            }
        }
        out
    }

    /// A dictionary value of a term that the pattern accepts.
    spec fn is_accepted(&self, p: PlanView, v: u64) -> bool {
        exists|t: Seq<char>| #[trigger] self.values().dom().contains(encode_utf8(t)) && plan_accepts(p, t) && self.values()[encode_utf8(t)] == v
    }

    /// The cursor of a term's postings.
    fn value_cursor(&self, value: u64) -> (r: Node<'_>)
        requires
            self.wf(),
            term_ok(value, self.postings@, self.dir()),
        ensures
            fresh(r, self.dir()),
            r.model().tids == term_tids(value, self.postings@, self.dir()),
            r.model().cost == 0 ==> r.model().tids =~= Set::<Tid>::empty(),
    {
        let p: TermPostings<'_> = TermPostings::from_value(value, self.postings.as_slice());
        proof {
            assert(p.is(value, self.postings@));
        }
        let r: Node<'_> = p.cursor(self.page_dir());
        proof {
            assert(p.is(value, self.postings@) && term_ok(value, self.postings@, self.dir()));
            if r.model().cost == 0 {
                assert(r.model().tids.len() == 0);
            }
        }
        r
    }

    /// A term's tuples.
    fn value_tids(&self, value: u64) -> (r: Vec<Tid>)
        requires
            self.wf(),
            term_ok(value, self.postings@, self.dir()),
        ensures
            forall|t: Tid| #[trigger] r@.contains(t) <==> term_tids(value, self.postings@, self.dir()).contains(t),
    {
        let ghost d = self.dir();
        if let TermPostings::Singleton(tid) = TermPostings::from_value(value, self.postings.as_slice()) {
            let mut one: Vec<Tid> = Vec::new();
            one.push(tid);
            proof {
                assert forall|t: Tid| #[trigger] one@.contains(t) <==> term_tids(value, self.postings@, d).contains(t) by {
                    assert(one@[0] == tid);
                    assert(crate::wire::term_has(value, self.postings@, d, t) <==> t == tid);
                }
            }
            return one;
        }
        let mut c: Node<'_> = self.value_cursor(value);
        let ghost m = c.model();
        let tids: Vec<Tid> = drive::for_each_tid(&mut c, &self.spaces, None);
        proof {
            assert forall|t: Tid| #[trigger] tids@.contains(t) <==> term_tids(value, self.postings@, d).contains(t) by {
                assert(live_tids(m, None).contains(t) <==> m.tids.contains(t));
            }
        }
        tids
    }

    fn empty_cursor(&self) -> (r: Node<'_>)
        requires
            self.wf(),
        ensures
            fresh(r, self.dir()),
            r.model().tids == Set::<Tid>::empty(),
            r.model().cost == 0,
    {
        let r: Node<'_> = Node::Empty(Empty::new(Ghost(self.dir())));
        proof {
            lemma_node(r);
        }
        r
    }

    /// The tuples of every term that a pattern accepts, as one bitmap.
    fn expand(&self, p: &Plan) -> (r: Node<'_>)
        requires
            self.wf(),
            p.view() is Prefix || p.view() is Fragment || p.view() is Fuzzy,
        ensures
            fresh(r, self.dir()),
            forall|t: Tid| #[trigger] r.model().tids.contains(t) <==> plan_matches(p.view(), self.terms_at(t)),
            r.model().cost == 0 ==> r.model().tids =~= Set::<Tid>::empty(),
    {
        let vals: Vec<u64> = self.accepted_values(p);
        proof {
            assert forall|k: int| 0 <= k < vals@.len() implies term_ok(#[trigger] vals@[k], self.postings@, self.dir()) by {
                assert(self.is_accepted(p.view(), vals@[k]));
                let x = choose|x: Seq<char>| #[trigger] self.values().dom().contains(encode_utf8(x)) && plan_accepts(p.view(), x) && self.values()[encode_utf8(x)]
                    == vals@[k];
                assert(self.stored().dom().contains(encode_utf8(x)));
            }
        }
        let r: Node<'_> = self.bits_of(&vals);
        proof {
            assert forall|t: Tid| #[trigger] r.model().tids.contains(t) <==> plan_matches(p.view(), self.terms_at(t)) by {
                if self.any_tids(vals@, vals@.len() as int, t) {
                    let k = choose|k: int| 0 <= k < vals@.len() && term_tids(#[trigger] vals@[k], self.postings@, self.dir()).contains(t);
                    assert(self.is_accepted(p.view(), vals@[k]));
                    let x = choose|x: Seq<char>| #[trigger] self.values().dom().contains(encode_utf8(x)) && plan_accepts(p.view(), x) && self.values()[encode_utf8(
                        x,
                    )] == vals@[k];
                    assert(self.has(x, t));
                    assert(self.terms_at(t).contains(x));
                }
                if plan_matches(p.view(), self.terms_at(t)) {
                    let x = choose|x: Seq<char>| #[trigger] self.terms_at(t).contains(x) && plan_accepts(p.view(), x);
                    assert(self.has(x, t));
                    let v = self.values()[encode_utf8(x)];
                    assert(vals@.contains(v));
                    let k = vals@.index_of(v);
                    assert(term_tids(vals@[k], self.postings@, self.dir()).contains(t));
                }
            }
        }
        r
    }

    /// One of the first `n` values is of a term that tuple `t` has.
    spec fn any_tids(&self, vals: Seq<u64>, n: int, t: Tid) -> bool {
        exists|k: int| 0 <= k < n && term_tids(#[trigger] vals[k], self.postings@, self.dir()).contains(t)
    }

    /// The tuples of several dictionary values, as one bitmap.
    fn bits_of(&self, vals: &Vec<u64>) -> (r: Node<'_>)
        requires
            self.wf(),
            forall|k: int| 0 <= k < vals@.len() ==> term_ok(#[trigger] vals@[k], self.postings@, self.dir()),
        ensures
            fresh(r, self.dir()),
            forall|t: Tid| #[trigger] r.model().tids.contains(t) <==> self.any_tids(vals@, vals@.len() as int, t),
            r.model().cost == 0 ==> r.model().tids =~= Set::<Tid>::empty(),
    {
        let ghost d = self.dir();
        let n: usize = self.widths.len() * 8 + 1;
        let mut bits: Vec<u64> = Vec::new();
        while bits.len() < n
            invariant
                bits@.len() <= n,
                forall|i: int| 0 <= i < bits@.len() ==> #[trigger] bits@[i] == 0,
            decreases n - bits@.len(),
        {
            bits.push(0);
        }
        proof {
            lemma_word_ops(0, 0);
            assert forall|x: int| !#[trigger] bit(bits@, x) by {
                if 0 <= x < bits@.len() * 64 {
                    assert(bits@[x / 64] == 0);
                }
            }
        }
        let mut i: usize = 0;
        while i < vals.len()
            invariant
                self.wf(),
                d == self.dir(),
                n == self.widths@.len() * 8 + 1,
                bits@.len() == n,
                i <= vals@.len(),
                forall|k: int| 0 <= k < vals@.len() ==> term_ok(#[trigger] vals@[k], self.postings@, d),
                forall|t: Tid| d.holds(t) ==> (#[trigger] bit(bits@, d.tid_bit(t)) <==> self.any_tids(vals@, i as int, t)),
            decreases vals@.len() - i,
        {
            let value: u64 = vals[i];
            proof {
                assert(term_ok(vals@[i as int], self.postings@, d));
            }
            let ghost was = bits@;
            let tids: Vec<Tid> = self.value_tids(value);
            let mut k: usize = 0;
            while k < tids.len()
                invariant
                    self.wf(),
                    d == self.dir(),
                    n == self.widths@.len() * 8 + 1,
                    bits@.len() == n,
                    term_ok(value, self.postings@, d),
                    forall|t: Tid| #[trigger] tids@.contains(t) <==> term_tids(value, self.postings@, d).contains(t),
                    k <= tids@.len(),
                    forall|x: int| #[trigger] bit(bits@, x) <==> bit(was, x) || exists|j: int| 0 <= j < k && d.tid_bit(#[trigger] tids@[j]) == x,
                decreases tids@.len() - k,
            {
                let t: Tid = tids[k];
                proof {
                    assert(tids@.contains(tids@[k as int]));
                    assert(crate::wire::term_has(value, self.postings@, d, t));
                    lemma_tid_bit_range(d, t);
                }
                let at: usize = self.tuple_bit(t);
                let ghost mid = bits@;
                words::set_bit(&mut bits, at);
                proof {
                    assert forall|x: int| #[trigger] bit(bits@, x) <==> bit(was, x) || exists|j: int| 0 <= j < k + 1 && d.tid_bit(#[trigger] tids@[j]) == x by {
                        assert(bit(mid, x) <==> bit(was, x) || exists|j: int| 0 <= j < k && d.tid_bit(#[trigger] tids@[j]) == x);
                        if x == at {
                            assert(d.tid_bit(tids@[k as int]) == x);
                        }
                    }
                }
                k = k + 1;
            }
            proof {
                assert forall|t: Tid| d.holds(t) implies (#[trigger] bit(bits@, d.tid_bit(t)) <==> self.any_tids(vals@, i + 1, t)) by {
                    assert(bit(was, d.tid_bit(t)) <==> self.any_tids(vals@, i as int, t));
                    if exists|j: int| 0 <= j < k && d.tid_bit(#[trigger] tids@[j]) == d.tid_bit(t) {
                        let j = choose|j: int| 0 <= j < k && d.tid_bit(#[trigger] tids@[j]) == d.tid_bit(t);
                        assert(tids@.contains(tids@[j]));
                        assert(crate::wire::term_has(value, self.postings@, d, tids@[j]));
                        lemma_tid_bit_distinct(d, tids@[j], t);
                        assert(term_tids(vals@[i as int], self.postings@, d).contains(t));
                    }
                    if self.any_tids(vals@, i as int, t) {
                        let j = choose|j: int| 0 <= j < i && term_tids(#[trigger] vals@[j], self.postings@, d).contains(t);
                        assert(0 <= j < i + 1 && term_tids(vals@[j], self.postings@, d).contains(t));
                    }
                    if self.any_tids(vals@, i + 1, t) {
                        let j = choose|j: int| 0 <= j < i + 1 && term_tids(#[trigger] vals@[j], self.postings@, d).contains(t);
                        if j == i {
                            assert(tids@.contains(t));
                            let y = tids@.index_of(t);
                            assert(d.tid_bit(tids@[y]) == d.tid_bit(t));
                        } else {
                            assert(self.any_tids(vals@, i as int, t));
                        }
                    }
                }
            }
            i = i + 1;
        }
        let ghost bv = bits@;
        let r: Node<'_> = Node::Bits(Bits::new(bits, &self.spaces));
        proof {
            lemma_node(r);
            assert forall|t: Tid| #[trigger] r.model().tids.contains(t) <==> self.any_tids(vals@, vals@.len() as int, t) by {
                assert(r.model().tids.contains(t) <==> d.holds(t) && bit(bv, d.tid_bit(t)));
                if self.any_tids(vals@, vals@.len() as int, t) {
                    let j = choose|j: int| 0 <= j < vals@.len() && term_tids(#[trigger] vals@[j], self.postings@, d).contains(t);
                    assert(term_ok(vals@[j], self.postings@, d));
                    assert(crate::wire::term_has(vals@[j], self.postings@, d, t));
                }
            }
            if r.model().cost == 0 {
                words::lemma_ones_below(bv, bv.len() as int * 64);
                assert forall|t: Tid| !r.model().tids.contains(t) by {
                    if r.model().tids.contains(t) {
                        assert(ones_of(bv).contains(d.tid_bit(t)));
                    }
                }
            }
        }
        r
    }

    /// Where a tuple's bit stands in the segment-wide tuple space.
    fn tuple_bit(&self, t: Tid) -> (r: usize)
        requires
            self.wf(),
            self.dir().holds(t),
        ensures
            r == self.dir().tid_bit(t),
    {
        let ghost d = self.dir();
        proof {
            lemma_tid_bit_range(d, t);
            self.spaces.lemma_holds_covered(t);
            self.spaces.lemma_small(t.spec_group());
        }
        let space: crate::space::GroupSpace<'_> = self.spaces.group(t.group());
        let base: u64 = space.base();
        let page: usize = t.page_in_group() as usize;
        let start: usize = space.start(page);
        proof {
            assert(t.spec_group() * 256 + t.spec_page() == t.block);
            crate::space::lemma_slot(d, t);
        }
        base as usize + start + t.offset_bit() as usize
    }

    /// Build the cursor tree for `plan` against this segment.
    pub fn cursor(&self, plan: &Plan) -> (r: Node<'_>)
        requires
            self.wf(),
            runnable(plan.view()),
        ensures
            fresh(r, self.dir()),
            forall|t: Tid| #[trigger] r.model().tids.contains(t) <==> self.yields(plan.view(), false, t),
            forall|t: Tid| self.matching(plan.view()).contains(t) ==> #[trigger] r.model().tids.contains(t),
            !self.spec_meta().grams || !plan.view().inexact() ==> r.model().tids == self.matching(plan.view()),
            r.model().cost == 0 ==> r.model().tids =~= Set::<Tid>::empty(),
    {
        let r: Node<'_> = self.cursor_at(plan, false);
        proof {
            assert forall|t: Tid| self.matching(plan.view()).contains(t) implies #[trigger] r.model().tids.contains(t) by {
                self.candidates_hold_matches(plan.view(), false, t);
            }
            if !self.spec_meta().grams || !plan.view().inexact() {
                assert forall|t: Tid| r.model().tids.contains(t) <==> self.matching(plan.view()).contains(t) by {
                    self.candidates_hold_matches(plan.view(), false, t);
                }
                assert(r.model().tids =~= self.matching(plan.view()));
            }
        }
        r
    }

    /// The cursor tree of a plan, or under a negation, where candidates won't
    /// do.
    fn cursor_at(&self, plan: &Plan, neg: bool) -> (r: Node<'_>)
        requires
            self.wf(),
            runnable(plan.view()),
        ensures
            fresh(r, self.dir()),
            forall|t: Tid| #[trigger] r.model().tids.contains(t) <==> self.yields(plan.view(), neg, t),
            r.model().cost == 0 ==> r.model().tids =~= Set::<Tid>::empty(),
        decreases plan,
    {
        proof {
            lemma_plan_view(*plan);
        }
        match plan {
            Plan::Term(t) => {
                let key: &[u8] = t.as_str().as_bytes();
                let found: Option<u64> = if self.is_hidden(key) {
                    None
                } else {
                    dict_get(&self.dict, key)
                };
                match found {
                    Some(v) => {
                        assert(self.stored().dom().contains(key@));
                        assert(term_ok(v, self.postings@, self.dir()));
                        let r: Node<'_> = self.value_cursor(v);
                        proof {
                            assert forall|x: Tid| #[trigger] r.model().tids.contains(x) <==> self.yields(plan.view(), neg, x) by {
                                if r.model().tids.contains(x) {
                                    assert(self.has(t@, x));
                                    assert(self.terms_at(x).contains(t@) && plan_accepts(plan.view(), t@));
                                }
                            }
                        }
                        r
                    },
                    None => {
                        let r: Node<'_> = self.empty_cursor();
                        proof {
                            assert forall|x: Tid| !self.yields(plan.view(), neg, x) by {
                                if self.yields(plan.view(), neg, x) {
                                    assert(self.has(t@, x));
                                }
                            }
                        }
                        r
                    },
                }
            },
            Plan::Fragment(f) => {
                if self.meta.grams && !neg {
                    self.fragment_cursor(f, plan)
                } else {
                    self.expand(plan)
                }
            },
            Plan::Prefix(_) | Plan::Fuzzy(_, _) => self.expand(plan),
            Plan::And(cs) => self.and_cursor(cs, neg),
            Plan::Or(cs) => self.or_cursor(cs, neg),
            Plan::AndNot(p, n) => {
                let pos: Node<'_> = self.cursor_at(p, neg);
                if pos.cost() == 0 {
                    proof {
                        assert forall|t: Tid| #[trigger] pos.model().tids.contains(t) <==> self.yields(plan.view(), neg, t) by {
                            assert(pos.model().tids =~= Set::<Tid>::empty());
                            assert(!pos.model().tids.contains(t));
                            assert(!self.yields(p.view(), neg, t));
                        }
                    }
                    return pos;
                }
                let not: Node<'_> = self.cursor_at(n, true);
                if not.cost() == 0 {
                    proof {
                        assert forall|t: Tid| #[trigger] pos.model().tids.contains(t) <==> self.yields(plan.view(), neg, t) by {
                            assert(!not.model().tids.contains(t));
                            assert(!self.yields(n.view(), true, t));
                        }
                    }
                    return pos;
                }
                let ghost (a, b) = (pos.model(), not.model());
                let r: Node<'_> = Node::AndNot(Box::new(AndNot::new(pos, not)));
                proof {
                    lemma_node(r);
                    assert forall|t: Tid| #[trigger] r.model().tids.contains(t) <==> self.yields(plan.view(), neg, t) by {
                        assert(a.tids.contains(t) <==> self.yields(p.view(), neg, t));
                        assert(b.tids.contains(t) <==> self.yields(n.view(), true, t));
                    }
                }
                r
            },
            Plan::Recheck(p) => self.cursor_at(p, neg),
        }
    }

    fn and_cursor(&self, cs: &Vec<Plan>, neg: bool) -> (r: Node<'_>)
        requires
            self.wf(),
            runnable(PlanView::And(plan_views(cs@))),
        ensures
            fresh(r, self.dir()),
            forall|t: Tid| #[trigger] r.model().tids.contains(t) <==> self.yields(PlanView::And(plan_views(cs@)), neg, t),
            r.model().cost == 0 ==> r.model().tids =~= Set::<Tid>::empty(),
        decreases cs,
    {
        let ghost pv = plan_views(cs@);
        let mut kids: Vec<Node<'_>> = Vec::new();
        let mut i: usize = 0;
        proof {
            lemma_runnable_parts(pv);
        }
        while i < cs.len()
            invariant
                self.wf(),
                pv == plan_views(cs@),
                pv.len() >= 1,
                forall|k: int| 0 <= k < pv.len() ==> runnable(#[trigger] pv[k]),
                i <= cs@.len(),
                kids@.len() == i,
                forall|k: int| 0 <= k < i ==> {
                    &&& fresh(#[trigger] kids@[k], self.dir())
                    &&& kids@[k].model().cost > 0
                    &&& forall|t: Tid| #[trigger] kids@[k].model().tids.contains(t) <==> self.yields(pv[k], neg, t)
                },
            decreases cs@.len() - i,
        {
            proof {
                assert(pv[i as int] == cs@[i as int].view());
                assert(runnable(pv[i as int]));
            }
            let k: Node<'_> = self.cursor_at(&cs[i], neg);
            if k.cost() == 0 {
                let r: Node<'_> = self.empty_cursor();
                proof {
                    assert forall|t: Tid| !self.yields(PlanView::And(pv), neg, t) by {
                        self.lemma_yields_parts(pv, neg, t);
                        if self.yields(PlanView::And(pv), neg, t) {
                            assert(self.yields(pv[i as int], neg, t));
                            assert(k.model().tids.contains(t));
                        }
                    }
                }
                return r;
            }
            kids.push(k);
            i = i + 1;
        }
        let ghost kv = kids@;
        proof {
            assert(fresh(kv[0], self.dir()));
            assert forall|k: int| 0 <= k < kv.len() implies fresh(#[trigger] kv[k], kv[0].model().dir) by {
                assert(fresh(kv[k], self.dir()));
            }
        }
        let r: Node<'_> = Node::And(Box::new(And::new(kids)));
        proof {
            lemma_node(r);
            assert forall|t: Tid| #[trigger] r.model().tids.contains(t) <==> self.yields(PlanView::And(pv), neg, t) by {
                self.lemma_yields_parts(pv, neg, t);
                if in_all(kv, t) {
                    assert forall|k: int| 0 <= k < pv.len() implies self.yields(#[trigger] pv[k], neg, t) by {
                        assert(kv[k].model().tids.contains(t));
                    }
                }
                if self.yields(PlanView::And(pv), neg, t) {
                    assert forall|k: int| 0 <= k < kv.len() implies (#[trigger] kv[k]).model().tids.contains(t) by {
                        assert(self.yields(pv[k], neg, t));
                    }
                }
            }
            let k = choose|k: int| 0 <= k < kv.len() && r.model().cost == (#[trigger] kv[k]).model().cost;
            assert(kv[k].model().cost > 0);
        }
        r
    }

    fn or_cursor(&self, cs: &Vec<Plan>, neg: bool) -> (r: Node<'_>)
        requires
            self.wf(),
            runnable(PlanView::Or(plan_views(cs@))),
        ensures
            fresh(r, self.dir()),
            forall|t: Tid| #[trigger] r.model().tids.contains(t) <==> self.yields(PlanView::Or(plan_views(cs@)), neg, t),
            r.model().cost == 0 ==> r.model().tids =~= Set::<Tid>::empty(),
        decreases cs,
    {
        let ghost pv = plan_views(cs@);
        let mut kids: Vec<Node<'_>> = Vec::new();
        let mut i: usize = 0;
        proof {
            lemma_runnable_parts(pv);
        }
        while i < cs.len()
            invariant
                self.wf(),
                pv == plan_views(cs@),
                forall|k: int| 0 <= k < pv.len() ==> runnable(#[trigger] pv[k]),
                i <= cs@.len(),
                forall|k: int| 0 <= k < kids@.len() ==> fresh(#[trigger] kids@[k], self.dir()) && kids@[k].model().cost > 0,
                forall|t: Tid| #[trigger] in_any(kids@, t) <==> self.any_yields(pv, i as int, neg, t),
            decreases cs@.len() - i,
        {
            proof {
                assert(pv[i as int] == cs@[i as int].view());
                assert(runnable(pv[i as int]));
            }
            let k: Node<'_> = self.cursor_at(&cs[i], neg);
            let ghost was = kids@;
            let ghost km = k.model();
            if k.cost() > 0 {
                kids.push(k);
            }
            proof {
                assert forall|t: Tid| #[trigger] in_any(kids@, t) <==> self.any_yields(pv, i + 1, neg, t) by {
                    assert(in_any(was, t) <==> self.any_yields(pv, i as int, neg, t));
                    assert(km.tids.contains(t) <==> self.yields(pv[i as int], neg, t));
                    if km.cost > 0 {
                        lemma_in_any_push(was, kids@.last(), t);
                        assert(kids@ =~= was.push(kids@.last()));
                    }
                    if self.any_yields(pv, i + 1, neg, t) && !self.any_yields(pv, i as int, neg, t) {
                        let j = choose|j: int| 0 <= j < i + 1 && self.yields(#[trigger] pv[j], neg, t);
                        assert(j == i);
                    }
                    if self.any_yields(pv, i as int, neg, t) {
                        let j = choose|j: int| 0 <= j < i && self.yields(#[trigger] pv[j], neg, t);
                        assert(self.yields(pv[j], neg, t));
                    }
                }
            }
            i = i + 1;
        }
        proof {
            assert forall|t: Tid| self.yields(PlanView::Or(pv), neg, t) <==> self.any_yields(pv, i as int, neg, t) by {
                self.lemma_yields_parts(pv, neg, t);
            }
        }
        let ghost kv = kids@;
        if kids.len() == 0 {
            let r: Node<'_> = self.empty_cursor();
            proof {
                assert forall|t: Tid| !self.yields(PlanView::Or(pv), neg, t) by {
                    assert(!in_any(kv, t));
                }
            }
            return r;
        }
        if kids.len() == 1 {
            let only: Option<Node<'_>> = kids.pop();
            if let Some(k) = only {
                proof {
                    assert(k == kv[0]);
                    assert(fresh(kv[0], self.dir()));
                    assert forall|t: Tid| #[trigger] k.model().tids.contains(t) <==> self.yields(PlanView::Or(pv), neg, t) by {
                        if k.model().tids.contains(t) {
                            assert(kv[0].model().tids.contains(t));
                        }
                        assert(in_any(kv, t) <==> k.model().tids.contains(t));
                    }
                }
                return k;
            }
            return vstd::pervasive::unreached();
        }
        proof {
            assert(fresh(kv[0], self.dir()));
            assert forall|k: int| 0 <= k < kv.len() implies fresh(#[trigger] kv[k], kv[0].model().dir) by {
                assert(fresh(kv[k], self.dir()));
            }
        }
        let r: Node<'_> = Node::Or(Box::new(Or::new(kids)));
        proof {
            lemma_node(r);
            lemma_cost_positive(kv, kv.len() as int);
            assert forall|t: Tid| #[trigger] r.model().tids.contains(t) <==> self.yields(PlanView::Or(pv), neg, t) by {
                assert(in_any(kv, t) <==> self.any_yields(pv, i as int, neg, t));
            }
        }
        r
    }

    /// The tuples that may have a term with the fragment `f`, by its grams.
    fn fragment_cursor(&self, f: &String, plan: &Plan) -> (r: Node<'_>)
        requires
            self.wf(),
            self.spec_meta().grams,
            plan.view() == PlanView::Fragment(f@),
        ensures
            fresh(r, self.dir()),
            forall|t: Tid| #[trigger] r.model().tids.contains(t) <==> self.yields(plan.view(), false, t),
            r.model().cost == 0 ==> r.model().tids =~= Set::<Tid>::empty(),
    {
        let n: usize = chars_of(f.as_str()).len();
        if n < GRAM_LEN {
            self.expand(plan)
        } else if n == GRAM_LEN {
            self.trigram_cursor(f, plan)
        } else {
            self.grams_cursor(f)
        }
    }

    /// The tuples that have a term with the three characters `f`: those of the
    /// grams that start with them.
    fn trigram_cursor(&self, f: &String, plan: &Plan) -> (r: Node<'_>)
        requires
            self.wf(),
            self.spec_meta().grams,
            plan.view() == PlanView::Fragment(f@),
            f@.len() == 3,
        ensures
            fresh(r, self.dir()),
            forall|t: Tid| #[trigger] r.model().tids.contains(t) <==> plan_matches(plan.view(), self.terms_at(t)),
            r.model().cost == 0 ==> r.model().tids =~= Set::<Tid>::empty(),
    {
        let ghost p = gram_at(f@, 0);
        let gs: Vec<String> = grams(f.as_str());
        proof {
            reveal_with_fuel(crate::pattern::grams_upto, 2);
            assert(grams_of(f@) =~= seq![p]);
            assert(strings_view(gs@)[0] == gs@[0]@);
        }
        let start: &str = gs[0].as_str();
        let key: &[u8] = start.as_bytes();
        let m: usize = key.len();
        proof {
            lemma_gram_key(p);
        }
        if key[m - 1] == 255 {
            return self.expand(plan);
        }
        let entries: Vec<(Vec<u8>, u64)> = self.entries_from(start);
        let prefix: Plan = Plan::Prefix(copy_of(start));
        let mut vals: Vec<u64> = Vec::new();
        let mut i: usize = 0;
        while i < entries.len()
            invariant
                self.wf(),
                i <= entries@.len(),
                p == gram_at(f@, 0),
                prefix.view() == PlanView::Prefix(p),
                forall|k: int| 0 <= k < entries@.len() ==> self.stored().dom().contains((#[trigger] entries@[k]).0@) && self.stored()[entries@[k].0@]
                    == entries@[k].1,
                forall|k: int| 0 <= k < vals@.len() ==> self.is_gram_value(p, #[trigger] vals@[k]),
                forall|k: int, g: Seq<char>| 0 <= k < i && (#[trigger] entries@[k]).0@ == #[trigger] encode_utf8(g) && starts(g, p) ==> vals@.contains(entries@[k].1),
            decreases entries@.len() - i,
        {
            let ghost was = vals@;
            let ghost key = entries@[i as int].0@;
            let bytes: &[u8] = entries[i].0.as_slice();
            proof {
                assert(self.stored().dom().contains(key));
                assert(exists|x: Seq<char>| encode_utf8(x) == key);
            }
            let ghost x = choose|x: Seq<char>| encode_utf8(x) == key;
            if accepts_term(&prefix, &key_term(bytes)) {
                vals.push(entries[i].1);
                proof {
                    assert(self.stored().dom().contains(encode_utf8(x)) && starts(x, p));
                    assert(self.is_gram_value(p, entries@[i as int].1));
                }
            }
            proof {
                assert forall|k: int, g: Seq<char>| 0 <= k < i + 1 && (#[trigger] entries@[k]).0@ == #[trigger] encode_utf8(g) && starts(g, p) implies vals@.contains(
                    entries@[k].1,
                ) by {
                    if k < i {
                        let y = was.index_of(entries@[k].1);
                        assert(vals@[y] == entries@[k].1);
                    } else {
                        lemma_encode_injective(x, g);
                        assert(vals@[was.len() as int] == entries@[k].1);
                    }
                }
            }
            i = i + 1;
        }
        proof {
            assert forall|k: int| 0 <= k < vals@.len() implies term_ok(#[trigger] vals@[k], self.postings@, self.dir()) by {
                assert(self.is_gram_value(p, vals@[k]));
                let x = choose|x: Seq<char>| #[trigger] self.stored().dom().contains(encode_utf8(x)) && starts(x, p) && self.stored()[encode_utf8(x)] == vals@[k];
            }
        }
        let r: Node<'_> = self.bits_of(&vals);
        proof {
            assert forall|t: Tid| #[trigger] r.model().tids.contains(t) <==> plan_matches(plan.view(), self.terms_at(t)) by {
                if self.any_tids(vals@, vals@.len() as int, t) {
                    let k = choose|k: int| 0 <= k < vals@.len() && term_tids(#[trigger] vals@[k], self.postings@, self.dir()).contains(t);
                    assert(self.is_gram_value(p, vals@[k]));
                    let g = choose|g: Seq<char>| #[trigger] self.stored().dom().contains(encode_utf8(g)) && starts(g, p) && self.stored()[encode_utf8(g)] == vals@[k];
                    assert(self.stores(g, t));
                    assert(g.subrange(0, 4)[0] == g[0]);
                    assert(is_gram(g));
                    assert(gram_among(self.terms_at(t), g));
                    let x = choose|x: Seq<char>| #[trigger] self.terms_at(t).contains(x) && wide_grams_of(x).contains(g);
                    lemma_trigram_exact(x, f@);
                    assert(plan_accepts(plan.view(), x));
                }
                if plan_matches(plan.view(), self.terms_at(t)) {
                    let x = choose|x: Seq<char>| #[trigger] self.terms_at(t).contains(x) && plan_accepts(plan.view(), x);
                    lemma_trigram_exact(x, f@);
                    let g = choose|g: Seq<char>| #[trigger] wide_grams_of(x).contains(g) && starts(g, p);
                    lemma_wide_is_gram(x, g);
                    assert(gram_among(self.terms_at(t), g));
                    assert(self.stores(g, t));
                    let k = choose|k: int| 0 <= k < entries@.len() && (#[trigger] entries@[k]).0@ == encode_utf8(g);
                    assert(entries@[k].0@ == encode_utf8(g));
                    let y = vals@.index_of(entries@[k].1);
                    assert(term_tids(vals@[y], self.postings@, self.dir()).contains(t));
                }
            }
        }
        r
    }

    /// A dictionary value of something stored that starts with `p`.
    spec fn is_gram_value(&self, p: Seq<char>, v: u64) -> bool {
        exists|g: Seq<char>| #[trigger] self.stored().dom().contains(encode_utf8(g)) && starts(g, p) && self.stored()[encode_utf8(g)] == v
    }

    /// The tuples that have all grams of `f` but the dense ones.
    fn grams_cursor(&self, f: &String) -> (r: Node<'_>)
        requires
            self.wf(),
            self.spec_meta().grams,
            f@.len() >= 4,
        ensures
            fresh(r, self.dir()),
            forall|t: Tid| #[trigger] r.model().tids.contains(t) <==> self.candidate(f@, t),
            r.model().cost == 0 ==> r.model().tids =~= Set::<Tid>::empty(),
    {
        let gs: Vec<String> = wide_grams(f.as_str());
        // The last one ends with the end marker: it lies not inside.
        let n: usize = gs.len() - 1;
        let mut vals: Vec<u64> = Vec::new();
        let mut counts: Vec<u64> = Vec::new();
        let mut least: u64 = 0xFFFF_FFFF_FFFF_FFFF;
        let mut i: usize = 0;
        while i < n
            invariant
                self.wf(),
                f@.len() >= 4,
                n == f@.len() - 3,
                gs@.len() == n + 1,
                forall|k: int| 0 <= k < gs@.len() ==> (#[trigger] gs@[k])@ == wide_gram_at(f@, k),
                i <= n,
                vals@.len() == i,
                counts@.len() == i,
                forall|k: int| #![trigger vals@[k]] #![trigger counts@[k]] 0 <= k < i ==> self.gram_known(f@, k, vals@[k], counts@[k]) && counts@[k] >= least,
                i > 0 ==> exists|k: int| 0 <= k < i && #[trigger] counts@[k] == least,
            decreases n - i,
        {
            let ghost g = wide_gram_at(f@, i as int);
            let key: &[u8] = gs[i].as_str().as_bytes();
            let ghost (vw, cw, lw) = (vals@, counts@, least);
            match dict_get(&self.dict, key) {
                Some(v) => {
                    proof {
                        assert(self.stored().dom().contains(key@));
                        assert(term_ok(v, self.postings@, self.dir()));
                    }
                    let p: TermPostings<'_> = TermPostings::from_value(v, self.postings.as_slice());
                    let c: u64 = p.doc_count();
                    vals.push(v);
                    counts.push(c);
                    if c < least || i == 0 {
                        least = c;
                        assert(counts@[i as int] == least);
                    }
                    proof {
                        assert forall|k: int| #![trigger vals@[k]] #![trigger counts@[k]] 0 <= k < i + 1 implies self.gram_known(f@, k, vals@[k], counts@[k])
                            && counts@[k] >= least by {
                            if k < i {
                                assert(vals@[k] == vw[k] && counts@[k] == cw[k]);
                                assert(self.gram_known(f@, k, vw[k], cw[k]) && cw[k] >= lw);
                            } else {
                                assert(self.gram_known(f@, k, v, c));
                            }
                        }
                        if least == lw && i > 0 {
                            let k = choose|k: int| 0 <= k < i && #[trigger] cw[k] == lw;
                            assert(counts@[k] == least);
                        }
                    }
                },
                None => {
                    let r: Node<'_> = self.empty_cursor();
                    proof {
                        assert(inner_grams(f@).contains(g));
                        assert(self.gram_count(g) == 0);
                        assert(self.uses(f@, g)) by {
                            assert forall|h: Seq<char>| #[trigger] inner_grams(f@).contains(h) implies self.gram_count(g) <= 10 * self.gram_count(h) by {
                                assert(self.gram_count(h) >= 0);
                            }
                        }
                        assert forall|t: Tid| !self.candidate(f@, t) by {
                            if self.candidate(f@, t) {
                                assert(self.stores(g, t));
                            }
                        }
                    }
                    return r;
                },
            }
            i = i + 1;
        }
        let mut kids: Vec<Node<'_>> = Vec::new();
        let mut j: usize = 0;
        while j < n
            invariant
                self.wf(),
                n == vals@.len(),
                n == counts@.len(),
                n == f@.len() - 3,
                j <= n,
                forall|k: int| #![trigger vals@[k]] #![trigger counts@[k]] 0 <= k < n ==> self.gram_known(f@, k, vals@[k], counts@[k]) && counts@[k] >= least,
                forall|k: int| 0 <= k < kids@.len() ==> fresh(#[trigger] kids@[k], self.dir()) && kids@[k].model().cost > 0,
                forall|t: Tid| #[trigger] in_all(kids@, t) <==> self.sparse_upto(f@, counts@, least as int, j as int, t),
                forall|k: int| 0 <= k < j && #[trigger] counts@[k] <= 10 * least ==> kids@.len() > 0,
            decreases n - j,
        {
            let ghost was = kids@;
            let ghost key = encode_utf8(wide_gram_at(f@, j as int));
            if counts[j] as u128 <= 10 * (least as u128) {
                proof {
                    assert(self.gram_known(f@, j as int, vals@[j as int], counts@[j as int]));
                    assert(term_ok(self.stored()[key], self.postings@, self.dir()));
                }
                let k: Node<'_> = self.value_cursor(vals[j]);
                if k.cost() == 0 {
                    proof {
                        let g = wide_gram_at(f@, j as int);
                        assert(k.model().tids =~= Set::<Tid>::empty());
                        assert(self.gram_count(g) == 0);
                        assert(inner_grams(f@).contains(g));
                        assert(self.uses(f@, g)) by {
                            assert forall|h: Seq<char>| #[trigger] inner_grams(f@).contains(h) implies self.gram_count(g) <= 10 * self.gram_count(h) by {
                                assert(self.gram_count(h) >= 0);
                            }
                        }
                        assert forall|t: Tid| !self.candidate(f@, t) by {
                            if self.candidate(f@, t) {
                                assert(self.stores(g, t));
                            }
                        }
                    }
                    return self.empty_cursor();
                }
                let ghost km = k.model();
                kids.push(k);
                proof {
                    assert(kids@ =~= was.push(kids@.last()));
                    assert forall|t: Tid| #[trigger] in_all(kids@, t) <==> self.sparse_upto(f@, counts@, least as int, j + 1, t) by {
                        lemma_in_all_push(was, kids@.last(), t);
                        assert(in_all(was, t) <==> self.sparse_upto(f@, counts@, least as int, j as int, t));
                        self.lemma_sparse_step(f@, counts@, least as int, j as int, t);
                    }
                }
            } else {
                proof {
                    assert forall|t: Tid| #[trigger] in_all(kids@, t) <==> self.sparse_upto(f@, counts@, least as int, j + 1, t) by {
                        self.lemma_sparse_step(f@, counts@, least as int, j as int, t);
                    }
                }
            }
            j = j + 1;
        }
        let ghost kv = kids@;
        proof {
            let k = choose|k: int| 0 <= k < n && #[trigger] counts@[k] == least;
            assert(counts@[k] <= 10 * least);
            assert(kv.len() > 0);
            assert(fresh(kv[0], self.dir()));
            assert forall|k: int| 0 <= k < kv.len() implies fresh(#[trigger] kv[k], kv[0].model().dir) by {
                assert(fresh(kv[k], self.dir()));
            }
        }
        let r: Node<'_> = Node::And(Box::new(And::new(kids)));
        proof {
            lemma_node(r);
            assert forall|k: int| 0 <= k < counts@.len() implies #[trigger] counts@[k] == self.gram_count(wide_gram_at(f@, k)) && counts@[k] >= least by {
                assert(self.gram_known(f@, k, vals@[k], counts@[k]));
            }
            assert forall|t: Tid| #[trigger] r.model().tids.contains(t) <==> self.candidate(f@, t) by {
                assert(in_all(kv, t) <==> self.sparse_upto(f@, counts@, least as int, n as int, t));
                self.lemma_sparse_all(f@, counts@, least as int, t);
            }
            let k = choose|k: int| 0 <= k < kv.len() && r.model().cost == (#[trigger] kv[k]).model().cost;
            assert(kv[k].model().cost > 0);
        }
        r
    }

    /// The dictionary value and the count of gram `k` of `f`.
    spec fn gram_known(&self, f: Seq<char>, k: int, v: u64, c: u64) -> bool {
        let g = wide_gram_at(f, k);
        &&& self.stored().dom().contains(encode_utf8(g))
        &&& v == self.stored()[encode_utf8(g)]
        &&& c == self.gram_count(g)
    }

    /// Of the first `n` grams of `f`, those that are not dense are stored of `t`.
    spec fn sparse_upto(&self, f: Seq<char>, counts: Seq<u64>, least: int, n: int, t: Tid) -> bool {
        forall|k: int| 0 <= k < n && #[trigger] counts[k] <= 10 * least ==> self.stores(wide_gram_at(f, k), t)
    }

    proof fn lemma_sparse_step(&self, f: Seq<char>, counts: Seq<u64>, least: int, n: int, t: Tid)
        requires
            0 <= n < counts.len(),
        ensures
            self.sparse_upto(f, counts, least, n + 1, t) <==> self.sparse_upto(f, counts, least, n, t) && (counts[n] <= 10 * least ==> self.stores(
                wide_gram_at(f, n),
                t,
            )),
    {
    }

    proof fn lemma_sparse_all(&self, f: Seq<char>, counts: Seq<u64>, least: int, t: Tid)
        requires
            counts.len() == f.len() - 3,
            forall|k: int| 0 <= k < counts.len() ==> #[trigger] counts[k] == self.gram_count(wide_gram_at(f, k)) && counts[k] >= least,
            exists|k: int| 0 <= k < counts.len() && #[trigger] counts[k] == least,
        ensures
            self.sparse_upto(f, counts, least, counts.len() as int, t) <==> self.candidate(f, t),
    {
        let n = counts.len() as int;
        if self.sparse_upto(f, counts, least, n, t) {
            assert forall|g: Seq<char>| #[trigger] self.uses(f, g) implies self.stores(g, t) by {
                let k = choose|k: int| 0 <= k <= f.len() - 4 && #[trigger] wide_gram_at(f, k) == g;
                let m = choose|m: int| 0 <= m < n && #[trigger] counts[m] == least;
                assert(inner_grams(f).contains(wide_gram_at(f, m)));
                assert(counts[k] <= 10 * least);
            }
        }
        if self.candidate(f, t) {
            assert forall|k: int| 0 <= k < n && #[trigger] counts[k] <= 10 * least implies self.stores(wide_gram_at(f, k), t) by {
                let g = wide_gram_at(f, k);
                assert(inner_grams(f).contains(g));
                assert forall|h: Seq<char>| #[trigger] inner_grams(f).contains(h) implies self.gram_count(g) <= 10 * self.gram_count(h) by {
                    let m = choose|m: int| 0 <= m <= f.len() - 4 && #[trigger] wide_gram_at(f, m) == h;
                    assert(counts[m] >= least);
                }
                assert(self.uses(f, g));
            }
        }
    }

    /// How many tuples a gram is stored of.
    pub open spec fn gram_count(&self, g: Seq<char>) -> int {
        if self.stored().dom().contains(encode_utf8(g)) {
            term_tids(self.stored()[encode_utf8(g)], self.area(), self.dir()).len() as int
        } else {
            0
        }
    }

    /// The grams of a fragment that are looked up: those inside it, but for any
    /// that is more than ten times as frequent as another.
    pub open spec fn uses(&self, f: Seq<char>, g: Seq<char>) -> bool {
        &&& inner_grams(f).contains(g)
        &&& forall|h: Seq<char>| #[trigger] inner_grams(f).contains(h) ==> self.gram_count(g) <= 10 * self.gram_count(h)
    }

    /// A tuple with all the grams that are looked up for a fragment.
    pub open spec fn candidate(&self, f: Seq<char>, tid: Tid) -> bool {
        forall|g: Seq<char>| #[trigger] self.uses(f, g) ==> self.stores(g, tid)
    }

    /// Whether a search for the plan, or under a negation for its opposite,
    /// gives the tuple. With grams a fragment of four characters or more gives
    /// candidates, except under a negation.
    pub open spec fn yields(&self, p: PlanView, neg: bool, tid: Tid) -> bool
        decreases p,
    {
        match p {
            PlanView::And(cs) => forall|i: int| 0 <= i < cs.len() ==> self.yields(#[trigger] cs[i], neg, tid),
            PlanView::Or(cs) => exists|i: int| 0 <= i < cs.len() && self.yields(#[trigger] cs[i], neg, tid),
            PlanView::AndNot(a, b) => self.yields(*a, neg, tid) && !self.yields(*b, true, tid),
            PlanView::Recheck(a) => self.yields(*a, neg, tid),
            PlanView::Fragment(f) => if self.spec_meta().grams && !neg && f.len() >= 4 {
                self.candidate(f, tid)
            } else {
                some_accepted(p, self.terms_at(tid))
            },
            _ => some_accepted(p, self.terms_at(tid)),
        }
    }

    proof fn lemma_yields_parts(&self, cs: Seq<PlanView>, neg: bool, tid: Tid)
        ensures
            self.yields(PlanView::And(cs), neg, tid) == forall|i: int| 0 <= i < cs.len() ==> self.yields(#[trigger] cs[i], neg, tid),
            self.yields(PlanView::Or(cs), neg, tid) == exists|i: int| 0 <= i < cs.len() && self.yields(#[trigger] cs[i], neg, tid),
    {
        let (a, o) = (PlanView::And(cs), PlanView::Or(cs));
        assert(a->And_0 == cs && o->Or_0 == cs);
        assert(self.yields(a, neg, tid) == forall|i: int| 0 <= i < a->And_0.len() ==> self.yields(#[trigger] a->And_0[i], neg, tid));
        assert(self.yields(o, neg, tid) == exists|i: int| 0 <= i < o->Or_0.len() && self.yields(#[trigger] o->Or_0[i], neg, tid));
    }

    /// A search gives every match of a plan, and nothing else unless it goes by
    /// grams: without them, under a negation, or where the plan holds no
    /// fragment that counts, what it gives are the matches.
    pub proof fn candidates_hold_matches(&self, p: PlanView, neg: bool, tid: Tid)
        requires
            self.wf(),
        ensures
            plan_matches(p, self.terms_at(tid)) ==> self.yields(p, neg, tid),
            neg || !self.spec_meta().grams || !p.inexact() ==> self.yields(p, neg, tid) == plan_matches(p, self.terms_at(tid)),
        decreases p,
    {
        let terms = self.terms_at(tid);
        match p {
            PlanView::And(cs) => {
                lemma_plan_parts(cs, terms);
                self.lemma_yields_parts(cs, neg, tid);
                assert forall|i: int| 0 <= i < cs.len() implies {
                    &&& plan_matches(#[trigger] cs[i], terms) ==> self.yields(cs[i], neg, tid)
                    &&& (neg || !self.spec_meta().grams || !cs[i].inexact() ==> self.yields(cs[i], neg, tid) == plan_matches(cs[i], terms))
                } by {
                    self.candidates_hold_matches(cs[i], neg, tid);
                }
            },
            PlanView::Or(cs) => {
                lemma_plan_parts(cs, terms);
                self.lemma_yields_parts(cs, neg, tid);
                assert forall|i: int| 0 <= i < cs.len() implies {
                    &&& plan_matches(#[trigger] cs[i], terms) ==> self.yields(cs[i], neg, tid)
                    &&& (neg || !self.spec_meta().grams || !cs[i].inexact() ==> self.yields(cs[i], neg, tid) == plan_matches(cs[i], terms))
                } by {
                    self.candidates_hold_matches(cs[i], neg, tid);
                }
            },
            PlanView::AndNot(a, b) => {
                self.candidates_hold_matches(*a, neg, tid);
                self.candidates_hold_matches(*b, true, tid);
            },
            PlanView::Recheck(a) => {
                self.candidates_hold_matches(*a, neg, tid);
            },
            PlanView::Fragment(f) => {
                if self.spec_meta().grams && f.len() >= 4 && some_accepted(p, terms) {
                    let x = choose|x: Seq<char>| #[trigger] terms.contains(x) && plan_accepts(p, x);
                    assert forall|g: Seq<char>| #[trigger] self.uses(f, g) implies self.stores(g, tid) by {
                        let i = choose|i: int| 0 <= i <= f.len() - 4 && #[trigger] wide_gram_at(f, i) == g;
                        lemma_wide_of_part(x, f, i);
                        lemma_wide_is_gram(x, g);
                        assert(gram_among(terms, g));
                    }
                }
            },
            _ => {},
        }
    }

    /// What a search gives has a term.
    pub proof fn yields_need_terms(&self, p: PlanView, neg: bool, tid: Tid) -> (x: Seq<char>)
        requires
            self.wf(),
            runnable(p),
            self.yields(p, neg, tid),
        ensures
            self.has(x, tid),
        decreases p,
    {
        match p {
            PlanView::And(cs) => {
                lemma_runnable_parts(cs);
                self.lemma_yields_parts(cs, neg, tid);
                assert(self.yields(cs[0], neg, tid));
                self.yields_need_terms(cs[0], neg, tid)
            },
            PlanView::Or(cs) => {
                lemma_runnable_parts(cs);
                self.lemma_yields_parts(cs, neg, tid);
                let i = choose|i: int| 0 <= i < cs.len() && self.yields(#[trigger] cs[i], neg, tid);
                self.yields_need_terms(cs[i], neg, tid)
            },
            PlanView::AndNot(a, b) => self.yields_need_terms(*a, neg, tid),
            PlanView::Recheck(a) => self.yields_need_terms(*a, neg, tid),
            PlanView::Fragment(f) => {
                if self.spec_meta().grams && !neg && f.len() >= 4 {
                    let g = self.lemma_some_used(f, f.len() - 4);
                    assert(self.uses(f, g));
                    assert(self.stores(g, tid));
                    let i = choose|i: int| 0 <= i <= f.len() - 4 && #[trigger] wide_gram_at(f, i) == g;
                    assert(is_gram(g));
                    assert(gram_among(self.terms_at(tid), g));
                    let x = choose|x: Seq<char>| #[trigger] self.terms_at(tid).contains(x) && wide_grams_of(x).contains(g);
                    x
                } else {
                    choose|x: Seq<char>| #[trigger] self.terms_at(tid).contains(x) && plan_accepts(p, x)
                }
            },
            _ => choose|x: Seq<char>| #[trigger] self.terms_at(tid).contains(x) && plan_accepts(p, x),
        }
    }

    /// A fragment is looked up by its rarest gram and by those that at most ten
    /// times as many tuples have.
    pub proof fn rare_grams_are_used(&self, f: Seq<char>, rarest: Seq<char>, g: Seq<char>)
        requires
            inner_grams(f).contains(rarest),
            forall|h: Seq<char>| #[trigger] inner_grams(f).contains(h) ==> self.gram_count(rarest) <= self.gram_count(h),
        ensures
            self.uses(f, g) <==> inner_grams(f).contains(g) && self.gram_count(g) <= 10 * self.gram_count(rarest),
    {
    }

    /// The rarest of the first grams of a fragment.
    proof fn lemma_rarest(&self, f: Seq<char>, n: int) -> (g: Seq<char>)
        requires
            0 <= n <= f.len() - 4,
        ensures
            inner_grams(f).contains(g),
            forall|i: int| 0 <= i <= n ==> self.gram_count(g) <= self.gram_count(#[trigger] wide_gram_at(f, i)),
        decreases n,
    {
        let last = wide_gram_at(f, n);
        assert(inner_grams(f).contains(last));
        if n == 0 {
            last
        } else {
            let g = self.lemma_rarest(f, n - 1);
            if self.gram_count(g) <= self.gram_count(last) {
                g
            } else {
                last
            }
        }
    }

    /// Some gram of a fragment is looked up.
    proof fn lemma_some_used(&self, f: Seq<char>, n: int) -> (g: Seq<char>)
        requires
            f.len() >= 4,
            n == f.len() - 4,
        ensures
            self.uses(f, g),
    {
        let g = self.lemma_rarest(f, n);
        assert forall|h: Seq<char>| #[trigger] inner_grams(f).contains(h) implies self.gram_count(g) <= 10 * self.gram_count(h) by {
            let i = choose|i: int| 0 <= i <= f.len() - 4 && #[trigger] wide_gram_at(f, i) == h;
            assert(self.gram_count(g) <= self.gram_count(wide_gram_at(f, i)));
            assert(self.gram_count(h) >= 0);
        }
        g
    }

    /// One of the first `n` plans gives the tuple.
    spec fn any_yields(&self, pv: Seq<PlanView>, n: int, neg: bool, t: Tid) -> bool {
        exists|i: int| 0 <= i < n && self.yields(#[trigger] pv[i], neg, t)
    }

    /// The matches of a plan.
    pub open spec fn matching(&self, p: PlanView) -> Set<Tid> {
        Set::new(|t: Tid| plan_matches(p, self.terms_at(t)))
    }

    /// The matches of a plan that are live.
    pub open spec fn live_matching(&self, p: PlanView, live: Option<&[u64]>) -> Set<Tid> {
        Set::new(|t: Tid| plan_matches(p, self.terms_at(t)) && alive(self.dir(), live, t))
    }

    /// What a search for a plan gives: its matches, and with grams candidates
    /// for its fragments.
    pub open spec fn found(&self, p: PlanView) -> Set<Tid> {
        Set::new(|t: Tid| self.yields(p, false, t))
    }

    /// What a search for a plan gives that is live.
    pub open spec fn live_found(&self, p: PlanView, live: Option<&[u64]>) -> Set<Tid> {
        Set::new(|t: Tid| self.yields(p, false, t) && alive(self.dir(), live, t))
    }

    /// A search gives every match, and without grams, or for a plan that needs
    /// no recheck, nothing else.
    pub proof fn searches_hold_matches(&self, p: PlanView, live: Option<&[u64]>)
        requires
            self.wf(),
        ensures
            self.matching(p).subset_of(self.found(p)),
            self.live_matching(p, live).subset_of(self.live_found(p, live)),
            !self.spec_meta().grams || !p.inexact() ==> {
                &&& self.found(p) == self.matching(p)
                &&& self.live_found(p, live) == self.live_matching(p, live)
            },
    {
        assert forall|t: Tid| #[trigger] self.matching(p).contains(t) implies self.found(p).contains(t) by {
            self.candidates_hold_matches(p, false, t);
        }
        assert forall|t: Tid| #[trigger] self.live_matching(p, live).contains(t) implies self.live_found(p, live).contains(t) by {
            self.candidates_hold_matches(p, false, t);
        }
        if !self.spec_meta().grams || !p.inexact() {
            assert forall|t: Tid| self.yields(p, false, t) == plan_matches(p, self.terms_at(t)) by {
                self.candidates_hold_matches(p, false, t);
            }
            assert(self.found(p) =~= self.matching(p));
            assert(self.live_found(p, live) =~= self.live_matching(p, live));
        }
    }

    /// Every match, in tid order.
    pub fn search(&self, plan: &Plan) -> (r: Vec<Tid>)
        requires
            self.wf(),
            runnable(plan.view()),
        ensures
            is_listing(r@, self.found(plan.view())),
            self.matching(plan.view()).subset_of(self.found(plan.view())),
            !self.spec_meta().grams || !plan.view().inexact() ==> self.found(plan.view()) == self.matching(plan.view()),
    {
        let r: Vec<Tid> = self.search_live(plan, None);
        proof {
            self.searches_hold_matches(plan.view(), None);
            assert(self.live_found(plan.view(), None) =~= self.found(plan.view()));
        }
        r
    }

    /// Every live match, in tid order.
    pub fn search_live(&self, plan: &Plan, live: Option<&[u64]>) -> (r: Vec<Tid>)
        requires
            self.wf(),
            runnable(plan.view()),
        ensures
            is_listing(r@, self.live_found(plan.view(), live)),
            self.live_matching(plan.view(), live).subset_of(self.live_found(plan.view(), live)),
            !self.spec_meta().grams || !plan.view().inexact() ==> self.live_found(plan.view(), live) == self.live_matching(plan.view(), live),
    {
        let mut c: Node<'_> = self.cursor(plan);
        let ghost m = c.model();
        let r: Vec<Tid> = drive::for_each_tid(&mut c, &self.spaces, live);
        proof {
            self.searches_hold_matches(plan.view(), live);
            assert(live_tids(m, live) =~= self.live_found(plan.view(), live));
        }
        r
    }

    /// Append every match to `out`, in tid order.
    pub fn collect(&self, plan: &Plan, out: &mut Vec<Tid>)
        requires
            self.wf(),
            runnable(plan.view()),
        ensures
            exists|l: Seq<Tid>| is_listing(l, self.found(plan.view())) && final(out)@ == old(out)@ + l,
            self.matching(plan.view()).subset_of(self.found(plan.view())),
            !self.spec_meta().grams || !plan.view().inexact() ==> self.found(plan.view()) == self.matching(plan.view()),
    {
        self.collect_live(plan, None, out);
        proof {
            self.searches_hold_matches(plan.view(), None);
            assert(self.live_found(plan.view(), None) =~= self.found(plan.view()));
        }
    }

    /// Append every live match to `out`, in tid order.
    pub fn collect_live(&self, plan: &Plan, live: Option<&[u64]>, out: &mut Vec<Tid>)
        requires
            self.wf(),
            runnable(plan.view()),
        ensures
            exists|l: Seq<Tid>| is_listing(l, self.live_found(plan.view(), live)) && final(out)@ == old(out)@ + l,
            self.live_matching(plan.view(), live).subset_of(self.live_found(plan.view(), live)),
            !self.spec_meta().grams || !plan.view().inexact() ==> self.live_found(plan.view(), live) == self.live_matching(plan.view(), live),
    {
        let mut c: Node<'_> = self.cursor(plan);
        let ghost m = c.model();
        drive::collect_tids(&mut c, &self.spaces, live, out);
        proof {
            self.searches_hold_matches(plan.view(), live);
            assert(live_tids(m, live) =~= self.live_found(plan.view(), live));
        }
    }

    /// How many tuples match.
    pub fn count(&self, plan: &Plan) -> (r: u64)
        requires
            self.wf(),
            runnable(plan.view()),
        ensures
            self.found(plan.view()).finite(),
            r == self.found(plan.view()).len(),
            self.matching(plan.view()).subset_of(self.found(plan.view())),
            !self.spec_meta().grams || !plan.view().inexact() ==> self.found(plan.view()) == self.matching(plan.view()),
    {
        let r: u64 = self.count_live(plan, None);
        proof {
            self.searches_hold_matches(plan.view(), None);
            assert(self.live_found(plan.view(), None) =~= self.found(plan.view()));
        }
        r
    }

    /// How many live tuples match.
    pub fn count_live(&self, plan: &Plan, live: Option<&[u64]>) -> (r: u64)
        requires
            self.wf(),
            runnable(plan.view()),
        ensures
            self.live_found(plan.view(), live).finite(),
            r == self.live_found(plan.view(), live).len(),
            self.live_matching(plan.view(), live).subset_of(self.live_found(plan.view(), live)),
            !self.spec_meta().grams || !plan.view().inexact() ==> self.live_found(plan.view(), live) == self.live_matching(plan.view(), live),
    {
        let mut c: Node<'_> = self.cursor(plan);
        let ghost m = c.model();
        let r: u64 = drive::count(&mut c, &self.spaces, live);
        proof {
            self.searches_hold_matches(plan.view(), live);
            assert(live_tids(m, live) =~= self.live_found(plan.view(), live));
        }
        r
    }
}

proof fn lemma_in_all_push(c: Seq<Node>, x: Node, t: Tid)
    ensures
        in_all(c.push(x), t) <==> in_all(c, t) && x.model().tids.contains(t),
{
    let d = c.push(x);
    if in_all(d, t) {
        assert forall|i: int| 0 <= i < c.len() implies (#[trigger] c[i]).model().tids.contains(t) by {
            assert(d[i].model().tids.contains(t));
        }
        assert(d[c.len() as int].model().tids.contains(t));
    }
}

proof fn lemma_in_any_push(c: Seq<Node>, x: Node, t: Tid)
    ensures
        in_any(c.push(x), t) <==> in_any(c, t) || x.model().tids.contains(t),
{
    let d = c.push(x);
    if in_any(c, t) {
        let i = choose|i: int| 0 <= i < c.len() && (#[trigger] c[i]).model().tids.contains(t);
        assert(d[i].model().tids.contains(t));
    }
    if x.model().tids.contains(t) {
        assert(d[c.len() as int].model().tids.contains(t));
    }
    if in_any(d, t) {
        let i = choose|i: int| 0 <= i < d.len() && (#[trigger] d[i]).model().tids.contains(t);
        if i < c.len() {
            assert(c[i].model().tids.contains(t));
        }
    }
}

proof fn lemma_cost_positive(c: Seq<Node>, n: int)
    requires
        1 <= n <= c.len(),
        forall|k: int| 0 <= k < c.len() ==> (#[trigger] c[k]).model().cost > 0,
    ensures
        cost_sum(c, n) > 0,
    decreases n,
{
    if n > 1 {
        lemma_cost_positive(c, n - 1);
    } else {
        assert(cost_sum(c, 0) == 0);
    }
    assert(c[n - 1].model().cost > 0);
}

// ---------------------------------------------------------------------------
// Serialization
// ---------------------------------------------------------------------------

/// The widths, two bytes each.
pub open spec fn width_bytes(w: Seq<u16>, n: int) -> Seq<u8>
    decreases n,
{
    if n <= 0 {
        Seq::empty()
    } else {
        width_bytes(w, n - 1) + le_seq(w[n - 1] as nat, 2)
    }
}

/// The first bytes of a segment: `TIN` and a zero, the format version, the
/// meta data, and how many widths follow.
pub open spec fn head_bytes(m: SegmentMeta, n: nat) -> Seq<u8> {
    seq![84u8, 73u8, 78u8, 0u8] + le_seq(0, 4) + le_seq(m.first_block as nat, 4) + le_seq(m.end_block as nat, 4) + le_seq(
        m.doc_count as nat,
        8,
    ) + le_seq(m.term_count as nat, 8) + le_seq(m.posting_count as nat, 8) + le_seq(n, 8)
}

/// Words, eight bytes each.
pub open spec fn word_bytes(s: Seq<u64>, n: int) -> Seq<u8>
    decreases n,
{
    if n <= 0 {
        Seq::empty()
    } else {
        word_bytes(s, n - 1) + le_seq(s[n - 1] as nat, 8)
    }
}

/// The byte that says whether grams are stored.
pub open spec fn flag_byte(grams: bool) -> u8 {
    if grams {
        1
    } else {
        0
    }
}

/// The bytes of a segment: the head, the page directory, the dictionary and
/// the postings area behind their lengths, the bits of the indexed tuples, and
/// whether grams are stored.
pub open spec fn segment_bytes(m: SegmentMeta, w: Seq<u16>, table: Seq<u8>, area: Seq<u8>, docs: Seq<u64>) -> Seq<u8> {
    head_bytes(m, w.len()) + width_bytes(w, w.len() as int) + le_seq(table.len(), 8) + table + le_seq(area.len(), 8) + area + word_bytes(
        docs,
        docs.len() as int,
    ) + seq![flag_byte(m.grams)]
}

/// Why bytes are no segment.
#[derive(Clone, Debug, PartialEq, Eq)]
pub enum SegmentError {
    Truncated,
    BadMagic,
    /// Written by another format version.
    Version(u32),
    /// More widths than their bytes can be counted, or pages past the last
    /// block number.
    BadDirectory,
    /// Neither with grams nor without.
    BadFlag,
    /// The dictionary could not be read; what its reader says.
    Dictionary(String),
    NoPadding,
    TrailingBytes,
}

impl SegmentError {
    /// What the error means.
    pub fn message(&self) -> (r: String)
        ensures
            r@ == match *self {
                SegmentError::Truncated => "truncated"@,
                SegmentError::BadMagic => "bad magic"@,
                SegmentError::Version(v) => "unsupported format version "@ + number_text(v as int),
                SegmentError::BadDirectory => "bad page directory length"@,
                SegmentError::BadFlag => "bad grams flag"@,
                SegmentError::Dictionary(m) => m@,
                SegmentError::NoPadding => "postings area missing tail padding"@,
                SegmentError::TrailingBytes => "trailing bytes"@,
            },
    {
        match self {
            SegmentError::Truncated => "truncated".to_owned(),
            SegmentError::BadMagic => "bad magic".to_owned(),
            SegmentError::Version(v) => {
                let n: String = text_of(&number_string(*v as u64));
                joined(&vec!["unsupported format version ", n.as_str()])
            },
            SegmentError::BadDirectory => "bad page directory length".to_owned(),
            SegmentError::BadFlag => "bad grams flag".to_owned(),
            SegmentError::Dictionary(m) => m.clone(),
            SegmentError::NoPadding => "postings area missing tail padding".to_owned(),
            SegmentError::TrailingBytes => "trailing bytes".to_owned(),
        }
    }
}

/// The number of widths that the head announces.
pub open spec fn n_widths(b: Seq<u8>) -> int {
    le_val(b, 40, 8) as int
}

/// Where the dictionary's length stands.
pub open spec fn table_at(b: Seq<u8>) -> int {
    48 + 2 * n_widths(b)
}

/// Where the postings area's length stands.
pub open spec fn area_at(b: Seq<u8>) -> int {
    table_at(b) + 8 + le_val(b, table_at(b), 8)
}

/// Where the bits of the indexed tuples stand.
pub open spec fn docs_at(b: Seq<u8>) -> int {
    area_at(b) + 8 + le_val(b, area_at(b), 8)
}

/// Where the byte stands that says whether grams are stored.
pub open spec fn flag_at(b: Seq<u8>) -> int {
    docs_at(b) + 8 * doc_word_count(widths_in(b))
}

/// The page directory.
pub open spec fn widths_in(b: Seq<u8>) -> Seq<u16> {
    Seq::new(n_widths(b) as nat, |i: int| le_val(b, 48 + 2 * i, 2) as u16)
}

/// What is wrong with the bytes up to the dictionary.
pub open spec fn head_fault(b: Seq<u8>) -> Option<SegmentError> {
    if b.len() < 4 {
        Some(SegmentError::Truncated)
    } else if !(b[0] == 84 && b[1] == 73 && b[2] == 78 && b[3] == 0) {
        Some(SegmentError::BadMagic)
    } else if b.len() < 8 {
        Some(SegmentError::Truncated)
    } else if le_val(b, 4, 4) != 0 {
        Some(SegmentError::Version(le_val(b, 4, 4) as u32))
    } else if b.len() < 48 {
        Some(SegmentError::Truncated)
    } else if 2 * n_widths(b) > u64::MAX {
        Some(SegmentError::BadDirectory)
    } else if b.len() < table_at(b) + 8 || b.len() < area_at(b) {
        Some(SegmentError::Truncated)
    } else {
        None
    }
}

/// What is wrong with the bytes behind the dictionary. A directory cannot go
/// past the last block number.
pub open spec fn area_fault(b: Seq<u8>) -> Option<SegmentError> {
    let at = area_at(b);
    if b.len() < at + 8 || b.len() < at + 8 + le_val(b, at, 8) {
        Some(SegmentError::Truncated)
    } else if le_val(b, at, 8) < 16 || exists|i: int| at + 8 + le_val(b, at, 8) - 16 <= i < at + 8 + le_val(b, at, 8) && #[trigger] b[i] != 0 {
        Some(SegmentError::NoPadding)
    } else if le_val(b, 8, 4) + n_widths(b) > u32::MAX + 1 {
        Some(SegmentError::BadDirectory)
    } else if b.len() < flag_at(b) + 1 {
        Some(SegmentError::Truncated)
    } else if b.len() != flag_at(b) + 1 {
        Some(SegmentError::TrailingBytes)
    } else if b[flag_at(b)] > 1 {
        Some(SegmentError::BadFlag)
    } else {
        None
    }
}

proof fn lemma_word_bytes(s: Seq<u64>, n: int)
    requires
        0 <= n <= s.len(),
    ensures
        word_bytes(s, n).len() == 8 * n,
        forall|i: int| 0 <= i < n ==> le_val(word_bytes(s, n), 8 * i, 8) == #[trigger] s[i],
    decreases n,
{
    if n > 0 {
        let a = word_bytes(s, n - 1);
        let b = word_bytes(s, n);
        lemma_word_bytes(s, n - 1);
        lemma_le_seq_len(s[n - 1] as nat, 8);
        lemma_le_limits();
        assert(embeds(a, b, 0));
        assert forall|i: int| 0 <= i < n implies le_val(b, 8 * i, 8) == #[trigger] s[i] by {
            if i < n - 1 {
                lemma_le_embeds(a, b, 0, 8 * i, 8);
            } else {
                assert(embeds(le_seq(s[n - 1] as nat, 8), b, 8 * (n - 1)));
                lemma_le_at(b, 8 * (n - 1), s[n - 1] as nat, 8);
            }
        }
    }
}

proof fn lemma_width_bytes(w: Seq<u16>, n: int)
    requires
        0 <= n <= w.len(),
    ensures
        width_bytes(w, n).len() == 2 * n,
        forall|i: int| 0 <= i < n ==> le_val(width_bytes(w, n), 2 * i, 2) == #[trigger] w[i],
    decreases n,
{
    if n > 0 {
        let a = width_bytes(w, n - 1);
        let b = width_bytes(w, n);
        lemma_width_bytes(w, n - 1);
        lemma_le_seq_len(w[n - 1] as nat, 2);
        lemma_le_limits();
        assert(embeds(a, b, 0));
        assert forall|i: int| 0 <= i < n implies le_val(b, 2 * i, 2) == #[trigger] w[i] by {
            if i < n - 1 {
                lemma_le_embeds(a, b, 0, 2 * i, 2);
            } else {
                assert(embeds(le_seq(w[n - 1] as nat, 2), b, 2 * (n - 1)));
                lemma_le_at(b, 2 * (n - 1), w[n - 1] as nat, 2);
            }
        }
    }
}

/// The fields of the head stand where they are read.
proof fn lemma_head(m: SegmentMeta, n: nat)
    requires
        n < le_limit(8),
    ensures
        head_bytes(m, n).len() == 48,
        head_bytes(m, n)[0] == 84,
        head_bytes(m, n)[1] == 73,
        head_bytes(m, n)[2] == 78,
        head_bytes(m, n)[3] == 0,
        le_val(head_bytes(m, n), 4, 4) == 0,
        le_val(head_bytes(m, n), 8, 4) == m.first_block,
        le_val(head_bytes(m, n), 12, 4) == m.end_block,
        le_val(head_bytes(m, n), 16, 8) == m.doc_count,
        le_val(head_bytes(m, n), 24, 8) == m.term_count,
        le_val(head_bytes(m, n), 32, 8) == m.posting_count,
        le_val(head_bytes(m, n), 40, 8) == n,
{
    let b = head_bytes(m, n);
    lemma_le_limits();
    lemma_le_seq_len(0, 4);
    lemma_le_seq_len(m.first_block as nat, 4);
    lemma_le_seq_len(m.end_block as nat, 4);
    lemma_le_seq_len(m.doc_count as nat, 8);
    lemma_le_seq_len(m.term_count as nat, 8);
    lemma_le_seq_len(m.posting_count as nat, 8);
    lemma_le_seq_len(n, 8);
    assert(embeds(le_seq(0, 4), b, 4));
    lemma_le_at(b, 4, 0, 4);
    assert(embeds(le_seq(m.first_block as nat, 4), b, 8));
    lemma_le_at(b, 8, m.first_block as nat, 4);
    assert(embeds(le_seq(m.end_block as nat, 4), b, 12));
    lemma_le_at(b, 12, m.end_block as nat, 4);
    assert(embeds(le_seq(m.doc_count as nat, 8), b, 16));
    lemma_le_at(b, 16, m.doc_count as nat, 8);
    assert(embeds(le_seq(m.term_count as nat, 8), b, 24));
    lemma_le_at(b, 24, m.term_count as nat, 8);
    assert(embeds(le_seq(m.posting_count as nat, 8), b, 32));
    lemma_le_at(b, 32, m.posting_count as nat, 8);
    assert(embeds(le_seq(n, 8), b, 40));
    lemma_le_at(b, 40, n, 8);
}

/// The parts of a segment's bytes stand where they are read, and nothing is
/// wrong with the bytes.
#[verifier::rlimit(60)]
#[verifier::spinoff_prover]
proof fn lemma_segment_bytes(b: Seq<u8>, m: SegmentMeta, w: Seq<u16>, table: Seq<u8>, area: Seq<u8>, docs: Seq<u64>)
    requires
        b == segment_bytes(m, w, table, area, docs),
        m.first_block + w.len() <= u32::MAX + 1,
        table.len() < le_limit(8),
        area.len() < le_limit(8),
    ensures
        b.len() == 48 + 2 * w.len() + 8 + table.len() + 8 + area.len() + 8 * docs.len() + 1,
        b.last() == flag_byte(m.grams),
        head_fault(b) is None,
        le_val(b, 8, 4) == m.first_block,
        le_val(b, 12, 4) == m.end_block,
        le_val(b, 16, 8) == m.doc_count,
        le_val(b, 24, 8) == m.term_count,
        le_val(b, 32, 8) == m.posting_count,
        n_widths(b) == w.len(),
        forall|i: int| 0 <= i < w.len() ==> le_val(b, 48 + 2 * i, 2) == #[trigger] w[i],
        le_val(b, table_at(b), 8) == table.len(),
        b.subrange(table_at(b) + 8, area_at(b)) == table,
        le_val(b, area_at(b), 8) == area.len(),
        b.subrange(area_at(b) + 8, docs_at(b)) == area,
        widths_in(b) == w,
        forall|i: int| 0 <= i < docs.len() ==> le_val(b, docs_at(b) + 8 * i, 8) == #[trigger] docs[i],
{
    let n = w.len() as int;
    let head = head_bytes(m, w.len());
    let wb = width_bytes(w, n);
    lemma_le_limits();
    lemma_head(m, w.len());
    lemma_width_bytes(w, n);
    lemma_word_bytes(docs, docs.len() as int);
    lemma_le_seq_len(table.len(), 8);
    lemma_le_seq_len(area.len(), 8);
    let p = 48 + 2 * n;
    let q = p + 8 + table.len();
    assert(embeds(head, b, 0));
    lemma_le_embeds(head, b, 0, 4, 4);
    lemma_le_embeds(head, b, 0, 8, 4);
    lemma_le_embeds(head, b, 0, 12, 4);
    lemma_le_embeds(head, b, 0, 16, 8);
    lemma_le_embeds(head, b, 0, 24, 8);
    lemma_le_embeds(head, b, 0, 32, 8);
    lemma_le_embeds(head, b, 0, 40, 8);
    assert(head[0] == b[0 + 0int] && head[1] == b[0 + 1int] && head[2] == b[0 + 2int] && head[3] == b[0 + 3int]);
    assert(embeds(wb, b, 48));
    assert forall|i: int| 0 <= i < n implies le_val(b, 48 + 2 * i, 2) == #[trigger] w[i] by {
        lemma_le_embeds(wb, b, 48, 2 * i, 2);
    }
    assert(embeds(le_seq(table.len(), 8), b, p));
    lemma_le_at(b, p, table.len(), 8);
    assert(b.subrange(p + 8, q) =~= table);
    assert(embeds(le_seq(area.len(), 8), b, q));
    lemma_le_at(b, q, area.len(), 8);
    let e = q + 8 + area.len();
    assert(b.subrange(q + 8, e) =~= area);
    assert(widths_in(b) =~= w);
    let db = word_bytes(docs, docs.len() as int);
    assert(embeds(db, b, e));
    assert forall|i: int| 0 <= i < docs.len() implies le_val(b, docs_at(b) + 8 * i, 8) == #[trigger] docs[i] by {
        lemma_le_embeds(db, b, e, 8 * i, 8);
    }
}

impl Segment {
    /// The bytes of the segment.
    pub open spec fn spec_bytes(&self) -> Seq<u8> {
        segment_bytes(self.spec_meta(), self.dir().widths, self.table(), self.area(), self.doc_words())
    }

    pub fn to_bytes(&self) -> (r: Vec<u8>)
        ensures
            r@ == self.spec_bytes(),
    {
        let table: &[u8] = dict_as_bytes(&self.dict);
        let mut out: Vec<u8> = Vec::new();
        out.push(84);
        out.push(73);
        out.push(78);
        out.push(0);
        assert(out@ =~= seq![84u8, 73u8, 78u8, 0u8]);
        put_le(&mut out, 0, 4);
        put_le(&mut out, self.meta.first_block as u64, 4);
        put_le(&mut out, self.meta.end_block as u64, 4);
        put_le(&mut out, self.meta.doc_count, 8);
        put_le(&mut out, self.meta.term_count, 8);
        put_le(&mut out, self.meta.posting_count, 8);
        put_le(&mut out, self.widths.len() as u64, 8);
        let ghost head = out@;
        let mut i: usize = 0;
        proof {
            assert(out@ =~= head + width_bytes(self.widths@, 0));
        }
        while i < self.widths.len()
            invariant
                i <= self.widths@.len(),
                out@ == head + width_bytes(self.widths@, i as int),
            decreases self.widths@.len() - i,
        {
            put_le(&mut out, self.widths[i] as u64, 2);
            proof {
                assert(out@ =~= head + width_bytes(self.widths@, i + 1));
            }
            i = i + 1;
        }
        put_le(&mut out, table.len() as u64, 8);
        let ghost before = out@;
        out.extend_from_slice(table);
        assert(out@ =~= before + table@);
        put_le(&mut out, self.postings.len() as u64, 8);
        let ghost before2 = out@;
        out.extend_from_slice(self.postings.as_slice());
        let ghost parts = out@;
        proof {
            assert(out@ =~= before2 + self.postings@);
            assert(out@ =~= parts + word_bytes(self.docs@, 0));
        }
        let mut j: usize = 0;
        while j < self.docs.len()
            invariant
                j <= self.docs@.len(),
                out@ == parts + word_bytes(self.docs@, j as int),
            decreases self.docs@.len() - j,
        {
            put_le(&mut out, self.docs[j], 8);
            proof {
                assert(out@ =~= parts + word_bytes(self.docs@, j + 1));
            }
            j = j + 1;
        }
        let ghost words = out@;
        out.push(if self.meta.grams {
            1
        } else {
            0
        });
        proof {
            assert(out@ =~= words + seq![flag_byte(self.meta.grams)]);
        }
        out
    }

    /// The segment that bytes stand for. Bytes that [`to_bytes`](Self::to_bytes)
    /// wrote give the segment back. Opening a dictionary takes 64-bit words.
    pub fn from_bytes(b: &[u8]) -> (r: Result<Segment, SegmentError>)
        requires
            u64::MAX <= usize::MAX,
        ensures
            match r {
                Ok(s) => {
                    &&& head_fault(b@) is None
                    &&& area_fault(b@) is None
                    &&& b@ == s.spec_bytes()
                },
                Err(SegmentError::Dictionary(_)) => head_fault(b@) is None && !exists|m: fst::Map<Vec<u8>>| #[trigger] dict_bytes(m) == b@.subrange(table_at(b@) + 8, area_at(b@)),
                Err(e) => head_fault(b@) == Some(e) || (head_fault(b@) is None && area_fault(b@) == Some(e)),
            },
            forall|s: Segment| s.wf() && #[trigger] s.spec_bytes() == b@ ==> r is Ok && same_segment(r->Ok_0, s),
    {
        let n: usize = b.len();
        proof {
            lemma_le_limits();
            assert forall|s: Segment| s.wf() && #[trigger] s.spec_bytes() == b@ implies head_fault(b@) is None && area_fault(b@) is None by {
                lemma_own_bytes(s, b@);
            }
        }
        let (meta, count, p, q): (SegmentMeta, u64, usize, usize) = match read_head(b) {
            Ok(x) => x,
            Err(e) => {
                return Err(e);
            },
        };
        let mut widths: Vec<u16> = Vec::new();
        while widths.len() < count as usize
            invariant
                widths@.len() <= count,
                n == b@.len(),
                48 + 2 * count + 8 <= n,
                le_limit(2) == 0x1_0000,
                forall|i: int| 0 <= i < widths@.len() ==> #[trigger] widths@[i] == le_val(b@, 48 + 2 * i, 2),
            decreases count - widths@.len(),
        {
            let i: usize = widths.len();
            widths.push(get_le(b, 48 + 2 * i, 2) as u16);
        }
        let bytes: Vec<u8> = vstd::slice::slice_to_vec(vstd::slice::slice_subrange(b, p + 8, q));
        let ghost tv = bytes@;
        assert(tv == b@.subrange(table_at(b@) + 8, area_at(b@)));
        let dict: fst::Map<Vec<u8>> = match dict_open(bytes) {
            Ok(d) => d,
            Err(e) => {
                proof {
                    assert forall|s: Segment| s.wf() && #[trigger] s.spec_bytes() == b@ implies false by {
                        lemma_own_bytes(s, b@);
                        assert(dict_bytes(s.dict) == tv);
                    }
                }
                return Err(SegmentError::Dictionary(dict_error_text(e)));
            },
        };
        if n - q < 8 {
            return Err(SegmentError::Truncated);
        }
        let area_len: u64 = get_le(b, q, 8);
        if area_len > (n - q - 8) as u64 {
            return Err(SegmentError::Truncated);
        }
        let end: usize = q + 8 + area_len as usize;
        if area_len < TAIL_PADDING as u64 {
            return Err(SegmentError::NoPadding);
        }
        let mut i: usize = end - TAIL_PADDING;
        while i < end
            invariant
                n == b@.len(),
                head_fault(b@) is None,
                q == area_at(b@),
                end == area_at(b@) + 8 + le_val(b@, area_at(b@), 8),
                end <= n,
                end - 16 <= i <= end,
                forall|k: int| end - 16 <= k < i ==> #[trigger] b@[k] == 0,
                forall|s: Segment| s.wf() && #[trigger] s.spec_bytes() == b@ ==> area_fault(b@) is None,
            decreases end - i,
        {
            if b[i] != 0 {
                assert(b@[i as int] != 0);
                return Err(SegmentError::NoPadding);
            }
            i = i + 1;
        }
        if count > 0xFFFF_FFFF - meta.first_block as u64 + 1 {
            return Err(SegmentError::BadDirectory);
        }
        let mut sum: u64 = 0;
        let mut i: usize = 0;
        proof {
            assert(widths@ =~= widths_in(b@));
        }
        while i < widths.len()
            invariant
                i <= widths@.len() <= 0x1_0000_0000,
                sum == total(widths@, i as int),
                sum <= i * 0xFFFF,
            decreases widths@.len() - i,
        {
            sum = sum + widths[i] as u64;
            i = i + 1;
        }
        let doc_count: usize = ((sum + 63) / 64) as usize;
        if n - end < 8 * doc_count + 1 {
            return Err(SegmentError::Truncated);
        }
        if n - end != 8 * doc_count + 1 {
            return Err(SegmentError::TrailingBytes);
        }
        let flag: u8 = b[n - 1];
        if flag > 1 {
            return Err(SegmentError::BadFlag);
        }
        let meta: SegmentMeta = SegmentMeta { grams: flag == 1, ..meta };
        let mut docs: Vec<u64> = Vec::new();
        while docs.len() < doc_count
            invariant
                docs@.len() <= doc_count,
                n == b@.len(),
                end + 8 * doc_count + 1 == n,
                le_limit(8) == 0x1_0000_0000_0000_0000,
                forall|i: int| 0 <= i < docs@.len() ==> #[trigger] docs@[i] == le_val(b@, end + 8 * i, 8),
            decreases doc_count - docs@.len(),
        {
            let i: usize = docs.len();
            docs.push(get_le(b, end + 8 * i, 8));
        }
        let postings: Vec<u8> = vstd::slice::slice_to_vec(vstd::slice::slice_subrange(b, q + 8, end));
        let spaces: SpaceTable = SpaceTable::new(PageDir::new(meta.first_block, widths.as_slice()));
        let seg: Segment = Segment { meta, widths, dict, postings, docs, spaces };
        proof {
            lemma_read_bytes(b@, meta, seg.widths@, tv, seg.postings@, seg.docs@);
            assert forall|s: Segment| s.wf() && #[trigger] s.spec_bytes() == b@ implies same_segment(seg, s) by {
                lemma_own_bytes(s, b@);
                assert(seg.widths@ =~= s.widths@);
                assert(dict_bytes(s.dict) == tv);
                assert(seg.postings@ =~= s.postings@);
                assert(seg.docs@ =~= s.docs@);
                lemma_same_segment(seg, s);
            }
        }
        Ok(seg)
    }
}

/// The head, how many widths follow, and where the lengths of the dictionary
/// and of the postings area stand.
fn read_head(b: &[u8]) -> (r: Result<(SegmentMeta, u64, usize, usize), SegmentError>)
    ensures
        match r {
            Ok((m, count, p, q)) => {
                &&& head_fault(b@) is None
                &&& le_val(b@, 8, 4) == m.first_block
                &&& le_val(b@, 12, 4) == m.end_block
                &&& le_val(b@, 16, 8) == m.doc_count
                &&& le_val(b@, 24, 8) == m.term_count
                &&& le_val(b@, 32, 8) == m.posting_count
                &&& n_widths(b@) == count
                &&& p == table_at(b@)
                &&& q == area_at(b@)
            },
            Err(e) => head_fault(b@) == Some(e) && !(e is Dictionary),
        },
{
    let n: usize = b.len();
    proof {
        lemma_le_limits();
    }
    if n < 4 {
        return Err(SegmentError::Truncated);
    }
    if !(b[0] == 84 && b[1] == 73 && b[2] == 78 && b[3] == 0) {
        return Err(SegmentError::BadMagic);
    }
    if n < 8 {
        return Err(SegmentError::Truncated);
    }
    let version: u64 = get_le(b, 4, 4);
    if version != 0 {
        return Err(SegmentError::Version(version as u32));
    }
    if n < 48 {
        return Err(SegmentError::Truncated);
    }
    let meta: SegmentMeta = SegmentMeta {
        first_block: get_le(b, 8, 4) as u32,
        end_block: get_le(b, 12, 4) as u32,
        doc_count: get_le(b, 16, 8),
        term_count: get_le(b, 24, 8),
        posting_count: get_le(b, 32, 8),
        grams: false,
    };
    let count: u64 = get_le(b, 40, 8);
    if count > u64::MAX / 2 {
        return Err(SegmentError::BadDirectory);
    }
    if n < 56 || 2 * count > (n - 56) as u64 {
        return Err(SegmentError::Truncated);
    }
    let p: usize = 48 + 2 * count as usize;
    let table_len: u64 = get_le(b, p, 8);
    if table_len > (n - p - 8) as u64 {
        return Err(SegmentError::Truncated);
    }
    let q: usize = p + 8 + table_len as usize;
    Ok((meta, count, p, q))
}

impl Segment {
    /// What a search gives is finite.
    pub proof fn lemma_found_finite(&self, p: PlanView)
        requires
            self.wf(),
            runnable(p),
        ensures
            self.found(p).finite(),
    {
        let end = self.spec_meta().end_block as int;
        let all = vstd::set_lib::set_int_range(0, (end + 1) * 0x1_0000);
        vstd::set_lib::lemma_int_range(0, (end + 1) * 0x1_0000);
        let f = |t: Tid| t.block * 0x1_0000 + t.offset;
        let m = self.found(p);
        assert forall|t: Tid| m.contains(t) implies all.contains(#[trigger] f(t)) by {
            let x = self.yields_need_terms(p, false, t);
            self.lemma_in_range(x, t);
        }
        let g = |n: int| Tid { block: (n / 0x1_0000) as u32, offset: (n % 0x1_0000) as u16 };
        let image = all.map(g);
        all.lemma_map_finite(g);
        assert(m.subset_of(image)) by {
            assert forall|t: Tid| m.contains(t) implies image.contains(t) by {
                assert(all.contains(f(t)));
                assert(g(f(t)) == t);
            }
        }
        vstd::set_lib::lemma_set_subset_finite(image, m);
    }

    /// Every tuple lies in the blocks that the segment covers.
    pub proof fn lemma_in_range(&self, t: Seq<char>, tid: Tid)
        requires
            self.wf(),
            self.has(t, tid),
        ensures
            self.spec_meta().first_block <= tid.block < self.spec_meta().end_block,
            self.dir().holds(tid),
    {
        let key = encode_utf8(t);
        assert(self.stored().dom().contains(key));
        assert(term_ok(self.values()[key], self.postings@, self.dir()));
        assert(crate::wire::term_has(self.values()[key], self.postings@, self.dir(), tid));
    }
}

impl Segment {
    /// Positions of all line pointers.
    pub open spec fn spec_tuple_bits(&self) -> int {
        total(self.dir().widths, self.dir().widths.len() as int)
    }

    /// Bit positions in the segment-wide tuple space: one for each line
    /// pointer of the pages.
    pub fn tuple_bits(&self) -> (r: u64)
        requires
            self.wf(),
        ensures
            r == self.spec_tuple_bits(),
    {
        let mut n: u64 = 0;
        let mut i: usize = 0;
        while i < self.widths.len()
            invariant
                self.wf(),
                i <= self.widths@.len(),
                n == total(self.widths@, i as int),
                n <= i * 512,
                self.widths@.len() <= u32::MAX,
                forall|k: int| 0 <= k < self.widths@.len() ==> #[trigger] self.widths@[k] <= 512,
            decreases self.widths@.len() - i,
        {
            n = n + self.widths[i] as u64;
            i = i + 1;
        }
        n
    }

    /// The indexed tuples, those without terms among them, as the bits of a
    /// liveness bitmap.
    pub fn docs(&self) -> (r: &[u64])
        ensures
            r@ == self.doc_words(),
    {
        self.docs.as_slice()
    }

    /// Words of a liveness bitmap.
    pub fn live_words(&self) -> (r: usize)
        requires
            self.wf(),
            self.spec_tuple_bits() <= usize::MAX,
        ensures
            r == (self.spec_tuple_bits() + 63) / 64,
    {
        let n: u64 = self.tuple_bits();
        let w: u64 = n / 64;
        if n % 64 == 0 {
            w as usize
        } else {
            w as usize + 1
        }
    }

    /// The bit of a tuple in a liveness bitmap; `None` if its line pointer is
    /// not covered.
    pub fn tid_bit(&self, tid: Tid) -> (r: Option<u64>)
        requires
            self.wf(),
        ensures
            match r {
                Some(b) => self.dir().holds(tid) && b == self.dir().tid_bit(tid),
                None => !self.dir().holds(tid),
            },
    {
        let first: u32 = self.meta.first_block;
        if tid.block < first || tid.offset < 1 {
            return None;
        }
        let at: usize = (tid.block - first) as usize;
        if at >= self.widths.len() || tid.offset > self.widths[at] {
            return None;
        }
        Some(self.tuple_bit(tid) as u64)
    }

    /// The tuples whose bits are set in a liveness bitmap, with their bits, in
    /// tid order.
    pub fn for_each_set_tid(&self, live: &[u64]) -> (r: Vec<(u64, Tid)>)
        requires
            self.wf(),
            self.spec_tuple_bits() <= live@.len() * 64,
            self.spec_tuple_bits() <= usize::MAX,
        ensures
            forall|k: int| 0 <= k < r@.len() ==> set_tid(self.dir(), live@, #[trigger] r@[k]),
            forall|t: Tid| self.dir().holds(t) && #[trigger] bit(live@, self.dir().tid_bit(t)) ==> exists|k: int| 0 <= k < r@.len() && (#[trigger] r@[k]).1 == t,
            forall|k: int, m: int| 0 <= k < m < r@.len() ==> (#[trigger] r@[k]).1.before((#[trigger] r@[m]).1),
    {
        let ghost d = self.dir();
        let mut out: Vec<(u64, Tid)> = Vec::new();
        let first: u32 = self.meta.first_block;
        let mut base: usize = 0;
        let mut i: usize = 0;
        let words: usize = live.len();
        while i < self.widths.len()
            invariant
                self.wf(),
                d == self.dir(),
                first == self.meta.first_block,
                words == live@.len(),
                i <= self.widths@.len(),
                first + self.widths@.len() <= u32::MAX,
                base == total(self.widths@, i as int),
                self.spec_tuple_bits() <= live@.len() * 64,
                self.spec_tuple_bits() <= usize::MAX,
                forall|k: int| 0 <= k < out@.len() ==> set_tid(d, live@, #[trigger] out@[k]) && out@[k].1.block < first + i,
                forall|t: Tid|
                    d.holds(t) && t.block < first + i && #[trigger] bit(live@, d.tid_bit(t)) ==> exists|k: int|
                        0 <= k < out@.len() && (#[trigger] out@[k]).1 == t,
                forall|k: int, m: int| 0 <= k < m < out@.len() ==> (#[trigger] out@[k]).1.before((#[trigger] out@[m]).1),
            decreases self.widths@.len() - i,
        {
            let w: u16 = self.widths[i];
            let block: u32 = first + i as u32;
            let mut o: u16 = 0;
            proof {
                lemma_total_mono(self.widths@, i + 1, self.widths@.len() as int);
                assert(d.below(block as int) == total(self.widths@, i as int));
                assert(d.width(block as int) == w);
            }
            while o < w
                invariant
                    self.wf(),
                    d == self.dir(),
                    words == live@.len(),
                    i < self.widths@.len(),
                    block == first + i,
                    w == self.widths@[i as int],
                    o <= w,
                    base == total(self.widths@, i as int),
                    base + w <= self.spec_tuple_bits(),
                    self.spec_tuple_bits() <= live@.len() * 64,
                    self.spec_tuple_bits() <= usize::MAX,
                    d.below(block as int) == base,
                    d.width(block as int) == w,
                    forall|k: int| 0 <= k < out@.len() ==> set_tid(d, live@, #[trigger] out@[k]) && (out@[k].1.block < block || (out@[k].1.block == block && out@[k].1.offset <= o)),
                    forall|t: Tid|
                        d.holds(t) && (t.block < block || (t.block == block && t.offset <= o)) && #[trigger] bit(live@, d.tid_bit(t)) ==> exists|k: int|
                            0 <= k < out@.len() && (#[trigger] out@[k]).1 == t,
                    forall|k: int, m: int| 0 <= k < m < out@.len() ==> (#[trigger] out@[k]).1.before((#[trigger] out@[m]).1),
                decreases w - o,
            {
                let b: usize = base + o as usize;
                let tid: Tid = Tid { block, offset: o + 1 };
                let ghost was = out@;
                let set: bool = get_bit(live, b);
                proof {
                    assert(d.tid_bit(tid) == b);
                    assert(d.holds(tid));
                }
                if set {
                    out.push((b as u64, tid));
                }
                proof {
                    assert forall|t: Tid|
                        d.holds(t) && (t.block < block || (t.block == block && t.offset <= o + 1)) && #[trigger] bit(live@, d.tid_bit(t)) implies exists|k: int|
                        0 <= k < out@.len() && (#[trigger] out@[k]).1 == t by {
                        if t == tid {
                            assert(out@[out@.len() - 1].1 == t);
                        } else {
                            let k = choose|k: int| 0 <= k < was.len() && (#[trigger] was[k]).1 == t;
                            assert(out@[k].1 == t);
                        }
                    }
                }
                o = o + 1;
            }
            proof {
                assert forall|t: Tid| d.holds(t) && t.block < first + i + 1 && #[trigger] bit(live@, d.tid_bit(t)) implies exists|k: int|
                    0 <= k < out@.len() && (#[trigger] out@[k]).1 == t by {
                    assert(t.block == block ==> t.offset <= w);
                }
            }
            base = base + w as usize;
            i = i + 1;
        }
        proof {
            assert forall|t: Tid| d.holds(t) && #[trigger] bit(live@, d.tid_bit(t)) implies exists|k: int| 0 <= k < out@.len() && (#[trigger] out@[k]).1 == t by {
                assert(t.block < first + i);
            }
        }
        out
    }
}

impl Segment {
    /// The indexed tuples that are live.
    pub open spec fn live_indexed(&self, live: Option<&[u64]>) -> Set<Tid> {
        Set::new(|t: Tid| self.indexed(t) && alive(self.dir(), live, t))
    }

    /// The indexed tuples that are live, in tid order.
    pub(crate) fn live_docs(&self, live: Option<&[u64]>) -> (r: Vec<Tid>)
        requires
            self.wf(),
        ensures
            is_listing(r@, self.live_indexed(live)),
    {
        let ghost d = self.dir();
        let ghost set = self.live_indexed(live);
        proof {
            lemma_total_bound(d, d.widths.len() as int);
        }
        let all: Vec<(u64, Tid)> = self.for_each_set_tid(self.docs.as_slice());
        let mut out: Vec<Tid> = Vec::new();
        let mut k: usize = 0;
        while k < all.len()
            invariant
                k <= all@.len(),
                self.wf(),
                d == self.dir(),
                set == self.live_indexed(live),
                forall|j: int| 0 <= j < all@.len() ==> set_tid(d, self.docs@, #[trigger] all@[j]),
                forall|j: int, m: int| 0 <= j < m < all@.len() ==> (#[trigger] all@[j]).1.before((#[trigger] all@[m]).1),
                forall|x: int| 0 <= x < out@.len() ==> set.contains(#[trigger] out@[x]) && came(all@, k as int, out@[x]),
                forall|j: int| 0 <= j < k && set.contains((#[trigger] all@[j]).1) ==> out@.contains(all@[j].1),
                forall|x: int, y: int| 0 <= x < y < out@.len() ==> (#[trigger] out@[x]).before(#[trigger] out@[y]),
            decreases all@.len() - k,
        {
            let (at, tid): (u64, Tid) = all[k];
            let ghost was = out@;
            let keep: bool = match live {
                None => true,
                Some(words) => {
                    at / 64 < words.len() as u64 && get_bit(words, at as usize)
                },
            };
            proof {
                assert(set_tid(d, self.docs@, all@[k as int]));
                lemma_tid_bit_range(d, tid);
                assert(keep == set.contains(tid));
            }
            if keep {
                out.push(tid);
            }
            proof {
                assert forall|x: int| 0 <= x < out@.len() implies set.contains(#[trigger] out@[x]) && came(all@, k + 1, out@[x]) by {
                    if x < was.len() {
                        assert(out@[x] == was[x]);
                        let j = choose|j: int| 0 <= j < k && (#[trigger] all@[j]).1 == was[x];
                        assert(0 <= j < k + 1 && all@[j].1 == out@[x]);
                    } else {
                        assert(all@[k as int].1 == out@[x]);
                    }
                }
                assert forall|j: int| 0 <= j < k + 1 && set.contains((#[trigger] all@[j]).1) implies out@.contains(all@[j].1) by {
                    if j < k {
                        let x = was.index_of(all@[j].1);
                        assert(was.contains(all@[j].1));
                        assert(out@[x] == all@[j].1);
                    } else {
                        assert(out@[out@.len() - 1] == tid);
                    }
                }
                assert forall|x: int, y: int| 0 <= x < y < out@.len() implies (#[trigger] out@[x]).before(#[trigger] out@[y]) by {
                    if y == was.len() {
                        let j = choose|j: int| 0 <= j < k && (#[trigger] all@[j]).1 == was[x];
                        assert(all@[j].1.before(all@[k as int].1));
                    }
                }
            }
            k = k + 1;
        }
        proof {
            assert forall|t: Tid| #[trigger] out@.contains(t) <==> set.contains(t) by {
                if set.contains(t) {
                    assert(bit(self.docs@, d.tid_bit(t)));
                    let j = choose|j: int| 0 <= j < all@.len() && (#[trigger] all@[j]).1 == t;
                    assert(out@.contains(all@[j].1));
                }
            }
        }
        out
    }

    /// The tuples of all terms, each term's counted for itself.
    pub open spec fn own_postings(&self) -> int {
        let ts = term_list(self.values());
        run_sum(self.values(), self.area(), self.dir(), ts, ts.len() as int)
    }

    /// Any list of all terms adds up to the same.
    pub proof fn lemma_own_postings(&self, ts: Seq<Seq<char>>)
        requires
            is_run(self.values(), ts),
            is_full(self.values(), ts),
        ensures
            run_sum(self.values(), self.area(), self.dir(), ts, ts.len() as int) == self.own_postings(),
            self.own_postings() >= 0,
    {
        let (v, a, d) = (self.values(), self.area(), self.dir());
        let all = term_list(v);
        assert(is_run(v, all) && is_full(v, all));
        assert(all.take(all.len() as int) =~= all && ts.take(ts.len() as int) =~= ts);
        lemma_run_part(v, a, d, all, all.len() as int, ts);
        lemma_run_part(v, a, d, ts, ts.len() as int, all);
        lemma_run_same(v, a, d, ts, ts, ts.len() as int);
    }

    /// With grams, every term is fit for them.
    pub proof fn lemma_gram_ready(&self, t: Seq<char>, tid: Tid)
        requires
            self.wf(),
            self.spec_meta().grams,
            self.has(t, tid),
        ensures
            gram_ready(t),
    {
    }

    /// A tuple that has a term was indexed.
    pub proof fn lemma_has_indexed(&self, t: Seq<char>, tid: Tid)
        requires
            self.wf(),
            self.has(t, tid),
        ensures
            self.indexed(tid),
    {
    }

    /// Every indexed tuple lies in the blocks that the segment covers.
    pub proof fn lemma_indexed_range(&self, tid: Tid)
        requires
            self.wf(),
            self.indexed(tid),
        ensures
            self.spec_meta().first_block <= tid.block < self.spec_meta().end_block,
    {
    }
}

/// Whether the tuple is among the first `n`.
spec fn came(all: Seq<(u64, Tid)>, n: int, t: Tid) -> bool {
    exists|j: int| 0 <= j < n && (#[trigger] all[j]).1 == t
}

/// A tuple whose bit is set, with its bit.
pub open spec fn set_tid(d: Widths, live: Seq<u64>, e: (u64, Tid)) -> bool {
    d.holds(e.1) && e.0 == d.tid_bit(e.1) && bit(live, e.0 as int)
}

proof fn lemma_total_mono(w: Seq<u16>, a: int, b: int)
    requires
        0 <= a <= b <= w.len(),
    ensures
        0 <= total(w, a) <= total(w, b),
    decreases b,
{
    if b > 0 {
        lemma_total_mono(w, if a < b { a } else { a - 1 }, b - 1);
    }
}

/// The segment is whole and holds what `s` holds.
pub open spec fn same_segment(seg: Segment, s: Segment) -> bool {
    &&& seg.wf()
    &&& seg.spec_meta() == s.spec_meta()
    &&& seg.dir() == s.dir()
    &&& seg.stored() == s.stored()
    &&& seg.values() == s.values()
    &&& seg.area() == s.area()
    &&& seg.doc_words() == s.doc_words()
}

proof fn lemma_same_segment(seg: Segment, s: Segment)
    requires
        s.wf(),
        seg.spaces.wf(),
        seg.spaces.dir() == seg.dir(),
        seg.meta == s.meta,
        seg.widths@ == s.widths@,
        seg.postings@ == s.postings@,
        seg.docs@ == s.docs@,
        dict_contents(seg.dict) == dict_contents(s.dict),
        dict_bytes(seg.dict) == dict_bytes(s.dict),
    ensures
        same_segment(seg, s),
{
    assert(seg.dir() == s.dir());
    assert(seg.stored() == s.stored());
    assert(seg.values() =~= s.values());
    assert forall|k: Seq<u8>| #[trigger] seg.stored().dom().contains(k) implies term_ok(seg.stored()[k], seg.postings@, seg.dir()) && exists|t: Seq<char>| encode_utf8(t) == k by {
        assert(s.stored().dom().contains(k));
    }
    if seg.spec_meta().grams {
        assert forall|g: Seq<char>, tid: Tid| is_gram(g) implies (#[trigger] seg.stores(g, tid) <==> gram_among(seg.terms_at(tid), g)) by {
            assert(seg.stores(g, tid) == s.stores(g, tid));
            assert(seg.terms_at(tid) =~= s.terms_at(tid));
        }
        assert forall|t: Seq<char>, tid: Tid| #[trigger] seg.has(t, tid) implies gram_ready(t) by {
            assert(s.has(t, tid));
        }
    }
    assert forall|t: Seq<char>, tid: Tid| #[trigger] seg.has(t, tid) implies seg.indexed(tid) by {
        assert(s.has(t, tid));
        assert(s.indexed(tid));
    }
}

/// A segment's own bytes read as its parts.
proof fn lemma_own_bytes(s: Segment, b: Seq<u8>)
    requires
        s.wf(),
        s.spec_bytes() == b,
    ensures
        head_fault(b) is None,
        area_fault(b) is None,
        le_val(b, 8, 4) == s.meta.first_block,
        le_val(b, 12, 4) == s.meta.end_block,
        b.last() == flag_byte(s.meta.grams),
        le_val(b, 16, 8) == s.meta.doc_count,
        le_val(b, 24, 8) == s.meta.term_count,
        le_val(b, 32, 8) == s.meta.posting_count,
        n_widths(b) == s.widths@.len(),
        forall|i: int| 0 <= i < s.widths@.len() ==> le_val(b, 48 + 2 * i, 2) == #[trigger] s.widths@[i],
        b.subrange(table_at(b) + 8, area_at(b)) == dict_bytes(s.dict),
        b.subrange(area_at(b) + 8, docs_at(b)) == s.postings@,
        widths_in(b) == s.widths@,
        forall|i: int| 0 <= i < s.docs@.len() ==> le_val(b, docs_at(b) + 8 * i, 8) == #[trigger] s.docs@[i],
{
    lemma_le_limits();
    let table = dict_bytes(s.dict);
    lemma_segment_bytes(b, s.meta, s.widths@, table, s.postings@, s.docs@);
    let at = area_at(b);
    assert forall|i: int| at + 8 + le_val(b, at, 8) - 16 <= i < at + 8 + le_val(b, at, 8) implies #[trigger] b[i] == 0 by {
        let k = i - (at + 8);
        assert(b.subrange(at + 8, docs_at(b))[k] == b[i]);
        assert(s.postings@[k] == 0);
    }
}

/// Parts read off bytes make those bytes.
proof fn lemma_read_bytes(b: Seq<u8>, m: SegmentMeta, w: Seq<u16>, table: Seq<u8>, area: Seq<u8>, docs: Seq<u64>)
    requires
        head_fault(b) is None,
        area_fault(b) is None,
        le_val(b, 8, 4) == m.first_block,
        le_val(b, 12, 4) == m.end_block,
        le_val(b, 16, 8) == m.doc_count,
        le_val(b, 24, 8) == m.term_count,
        le_val(b, 32, 8) == m.posting_count,
        n_widths(b) == w.len(),
        forall|i: int| 0 <= i < w.len() ==> #[trigger] w[i] == le_val(b, 48 + 2 * i, 2),
        table == b.subrange(table_at(b) + 8, area_at(b)),
        area == b.subrange(area_at(b) + 8, docs_at(b)),
        docs.len() == doc_word_count(widths_in(b)),
        b.last() == flag_byte(m.grams),
        forall|i: int| 0 <= i < docs.len() ==> #[trigger] docs[i] == le_val(b, docs_at(b) + 8 * i, 8),
    ensures
        segment_bytes(m, w, table, area, docs) == b,
{
    let n = w.len() as int;
    lemma_le_back(b, 4, 4);
    lemma_le_back(b, 8, 4);
    lemma_le_back(b, 12, 4);
    lemma_le_back(b, 16, 8);
    lemma_le_back(b, 24, 8);
    lemma_le_back(b, 32, 8);
    lemma_le_back(b, 40, 8);
    let (p, q) = (table_at(b), area_at(b));
    lemma_le_back(b, p, 8);
    lemma_le_back(b, q, 8);
    assert(head_bytes(m, w.len()) =~= b.subrange(0, 48));
    lemma_widths_back(b, w, n);
    lemma_words_back(b, docs_at(b), docs, docs.len() as int);
    assert(segment_bytes(m, w, table, area, docs) =~= b);
}

proof fn lemma_words_back(b: Seq<u8>, at: int, s: Seq<u64>, n: int)
    requires
        0 <= n <= s.len(),
        0 <= at,
        at + 8 * s.len() <= b.len(),
        forall|i: int| 0 <= i < s.len() ==> #[trigger] s[i] == le_val(b, at + 8 * i, 8),
    ensures
        word_bytes(s, n) == b.subrange(at, at + 8 * n),
    decreases n,
{
    if n > 0 {
        lemma_words_back(b, at, s, n - 1);
        lemma_le_back(b, at + 8 * (n - 1), 8);
        assert(s[n - 1] == le_val(b, at + 8 * (n - 1), 8));
    }
    assert(word_bytes(s, n) =~= b.subrange(at, at + 8 * n));
}

proof fn lemma_widths_back(b: Seq<u8>, w: Seq<u16>, n: int)
    requires
        0 <= n <= w.len(),
        48 + 2 * w.len() <= b.len(),
        forall|i: int| 0 <= i < w.len() ==> #[trigger] w[i] == le_val(b, 48 + 2 * i, 2),
    ensures
        width_bytes(w, n) == b.subrange(48, 48 + 2 * n),
    decreases n,
{
    if n > 0 {
        lemma_widths_back(b, w, n - 1);
        lemma_le_back(b, 48 + 2 * (n - 1), 2);
        assert(w[n - 1] == le_val(b, 48 + 2 * (n - 1), 2));
        assert(width_bytes(w, n) =~= b.subrange(48, 48 + 2 * n));
    } else {
        assert(width_bytes(w, n) =~= b.subrange(48, 48 + 2 * n));
    }
}

} // verus!
