//! Highlighting: the words of a document that made it match, wrapped in
//! markers ([`DocWords::marks`] says which).

use vstd::prelude::*;
use crate::grammar::white_space;
use crate::lexer::is_white;
use crate::query::{doc_of, marks, Query};
use crate::span::DocWords;
use crate::text::{bytes_before, byte_len, chars_of, fits, lemma_bytes_mono, width_of};
use crate::tokenize::{in_order, token_views, tokens_of, Analyzer, Token, TokenView};
use crate::windows::{ascends, positions_of};

verus! {

// ---------------------------------------------------------------------------
// Texts by bytes
// ---------------------------------------------------------------------------

/// The first character from `i` on that starts at byte `b` or later.
pub open spec fn index_from(s: Seq<char>, b: int, i: int) -> int
    decreases s.len() - i,
{
    if i >= s.len() || bytes_before(s, i) >= b {
        i
    } else {
        index_from(s, b, i + 1)
    }
}

/// The first character that starts at byte `b` or later.
pub open spec fn index_at(s: Seq<char>, b: int) -> int {
    index_from(s, b, 0)
}

/// The part of a text from byte `a` to byte `b`.
pub open spec fn byte_slice(s: Seq<char>, a: int, b: int) -> Seq<char> {
    if index_at(s, a) < index_at(s, b) {
        s.subrange(index_at(s, a), index_at(s, b))
    } else {
        Seq::empty()
    }
}

proof fn lemma_index(s: Seq<char>, b: int, i: int)
    requires
        0 <= i <= s.len(),
    ensures
        i <= index_from(s, b, i) <= s.len(),
        forall|k: int| i <= k < index_from(s, b, i) ==> #[trigger] bytes_before(s, k) < b,
        index_from(s, b, i) < s.len() ==> bytes_before(s, index_from(s, b, i)) >= b,
    decreases s.len() - i,
{
    if i < s.len() && bytes_before(s, i) < b {
        lemma_index(s, b, i + 1);
    }
}

/// A place that is the first at byte `b` or later.
proof fn lemma_index_is(s: Seq<char>, b: int, n: int)
    requires
        0 <= n <= s.len(),
        n < s.len() ==> bytes_before(s, n) >= b,
        n > 0 ==> bytes_before(s, n - 1) < b,
    ensures
        index_at(s, b) == n,
{
    lemma_index(s, b, 0);
    let r = index_at(s, b);
    if r < n {
        lemma_bytes_mono(s, r, n - 1);
    }
    if n < r {
        assert(bytes_before(s, n) < b);
    }
}

/// Parts of a text that follow each other make one part.
proof fn lemma_slices(s: Seq<char>, a: int, b: int, c: int)
    requires
        a <= b <= c,
    ensures
        byte_slice(s, a, b) + byte_slice(s, b, c) == byte_slice(s, a, c),
{
    lemma_index(s, a, 0);
    lemma_index(s, b, 0);
    lemma_index(s, c, 0);
    let (x, y, z) = (index_at(s, a), index_at(s, b), index_at(s, c));
    assert(x <= y) by {
        if y < x {
            assert(bytes_before(s, y) < a);
        }
    }
    assert(y <= z) by {
        if z < y {
            assert(bytes_before(s, z) < b);
        }
    }
    assert(byte_slice(s, a, b) + byte_slice(s, b, c) =~= byte_slice(s, a, c));
}

/// A text and where each of its characters starts.
struct Chars {
    chars: Vec<char>,
    starts: Vec<usize>,
}

impl Chars {
    spec fn wf(&self) -> bool {
        &&& self.starts@.len() == self.chars@.len()
        &&& forall|i: int| 0 <= i < self.starts@.len() ==> #[trigger] self.starts@[i] == bytes_before(self.chars@, i)
    }

    fn new(text: &str) -> (r: Self)
        requires
            fits(text@),
        ensures
            r.wf(),
            r.chars@ == text@,
    {
        let chars: Vec<char> = chars_of(text);
        let mut starts: Vec<usize> = Vec::new();
        let mut at: usize = 0;
        let mut i: usize = 0;
        while i < chars.len()
            invariant
                i <= chars@.len(),
                fits(chars@),
                at == bytes_before(chars@, i as int),
                starts@.len() == i,
                forall|k: int| 0 <= k < i ==> #[trigger] starts@[k] == bytes_before(chars@, k),
            decreases chars@.len() - i,
        {
            starts.push(at);
            proof {
                lemma_bytes_mono(chars@, 0, i as int);
            }
            at = at + width_of(chars[i]);
            i = i + 1;
        }
        Chars { chars, starts }
    }

    /// The first character that starts at byte `b` or later.
    fn index(&self, b: usize) -> (r: usize)
        requires
            self.wf(),
        ensures
            r == index_at(self.chars@, b as int),
            r <= self.chars@.len(),
    {
        let mut lo: usize = 0;
        let mut hi: usize = self.starts.len();
        while lo < hi
            invariant
                self.wf(),
                lo <= hi <= self.chars@.len(),
                lo > 0 ==> bytes_before(self.chars@, lo - 1) < b,
                hi < self.chars@.len() ==> bytes_before(self.chars@, hi as int) >= b,
            decreases hi - lo,
        {
            let mid: usize = lo + (hi - lo) / 2;
            if self.starts[mid] < b {
                lo = mid + 1;
            } else {
                hi = mid;
            }
        }
        proof {
            lemma_index_is(self.chars@, b as int, lo as int);
        }
        lo
    }

    /// Append the part from byte `a` to byte `b`.
    fn put(&self, a: usize, b: usize, out: &mut String)
        requires
            self.wf(),
        ensures
            final(out)@ == old(out)@ + byte_slice(self.chars@, a as int, b as int),
    {
        let ghost start = out@;
        let (from, to): (usize, usize) = (self.index(a), self.index(b));
        if from >= to {
            proof {
                assert(start + byte_slice(self.chars@, a as int, b as int) =~= start);
            }
            return;
        }
        let mut i: usize = from;
        proof {
            assert(start + self.chars@.subrange(from as int, from as int) =~= start);
        }
        while i < to
            invariant
                from <= i <= to <= self.chars@.len(),
                out@ == start + self.chars@.subrange(from as int, i as int),
            decreases to - i,
        {
            out.push(self.chars[i]);
            i = i + 1;
            proof {
                assert(out@ =~= start + self.chars@.subrange(from as int, i as int));
            }
        }
    }
}

/// Append a text.
fn put_text(out: &mut String, s: &str)
    ensures
        final(out)@ == old(out)@ + s@,
{
    let ghost start = out@;
    let cs: Vec<char> = chars_of(s);
    let mut i: usize = 0;
    while i < cs.len()
        invariant
            i <= cs@.len(),
            out@ == start + cs@.take(i as int),
        decreases cs@.len() - i,
    {
        out.push(cs[i]);
        i = i + 1;
        proof {
            assert(out@ =~= start + cs@.take(i as int));
        }
    }
    proof {
        assert(cs@.take(i as int) =~= cs@);
    }
}

// ---------------------------------------------------------------------------
// Markers
// ---------------------------------------------------------------------------

/// How many of the first `n` characters are white space.
pub open spec fn spaces(s: Seq<char>, n: int) -> int
    decreases n,
{
    if n <= 0 {
        0
    } else {
        spaces(s, n - 1) + (if white_space(s[n - 1]) { 1int } else { 0int })
    }
}

/// Whether two matched words with `between` them share one marker: only
/// spaces (`big bad`) or no spaces at all (`e-mail`), but not `big, bad`.
pub open spec fn joins(between: Seq<char>) -> bool {
    spaces(between, between.len() as int) == 0 || spaces(between, between.len() as int) == between.len()
}

/// Whether two matched words with `between` them share one marker.
pub fn joinable(between: &str) -> (r: bool)
    ensures
        r == joins(between@),
{
    let cs: Vec<char> = chars_of(between);
    let mut n: usize = 0;
    let mut i: usize = 0;
    while i < cs.len()
        invariant
            i <= cs@.len(),
            n <= i,
            n == spaces(cs@, i as int),
        decreases cs@.len() - i,
    {
        if is_white(cs[i]) {
            n = n + 1;
        }
        i = i + 1;
    }
    n == 0 || n == cs.len()
}

/// The last word of the run of marked words that starts with word `j`.
pub open spec fn run_end(text: Seq<char>, ts: Seq<TokenView>, ms: Set<int>, to: int, j: int) -> int
    decreases ts.len() - j,
{
    if j + 1 < ts.len() && ts[j + 1].pos == ts[j].pos + 1 && ts[j + 1].end <= to && ms.contains(ts[j + 1].pos) && joins(
        byte_slice(text, ts[j].end, ts[j + 1].start),
    ) {
        run_end(text, ts, ms, to, j + 1)
    } else {
        j
    }
}

/// The text from byte `at` to byte `to`, with the marked words from word `i`
/// on that lie between `from` and `to` wrapped, a run of them in one pair.
pub open spec fn rendered(
    text: Seq<char>,
    ts: Seq<TokenView>,
    ms: Set<int>,
    i: int,
    at: int,
    from: int,
    to: int,
    start: Seq<char>,
    stop: Seq<char>,
) -> Seq<char>
    decreases ts.len() - i,
{
    if i >= ts.len() {
        byte_slice(text, at, to)
    } else if ts[i].start < from || ts[i].end > to || !ms.contains(ts[i].pos) {
        rendered(text, ts, ms, i + 1, at, from, to, start, stop)
    } else {
        let j = run_end(text, ts, ms, to, i);
        if j < i || j >= ts.len() {
            Seq::empty()
        } else {
            byte_slice(text, at, ts[i].start) + start + byte_slice(text, ts[i].start, ts[j].end) + stop + rendered(
                text,
                ts,
                ms,
                j + 1,
                ts[j].end,
                from,
                to,
                start,
                stop,
            )
        }
    }
}

proof fn lemma_run_end(text: Seq<char>, ts: Seq<TokenView>, ms: Set<int>, to: int, j: int)
    requires
        0 <= j < ts.len(),
    ensures
        j <= run_end(text, ts, ms, to, j) < ts.len(),
    decreases ts.len() - j,
{
    if j + 1 < ts.len() && ts[j + 1].pos == ts[j].pos + 1 && ts[j + 1].end <= to && ms.contains(ts[j + 1].pos) && joins(
        byte_slice(text, ts[j].end, ts[j + 1].start),
    ) {
        lemma_run_end(text, ts, ms, to, j + 1);
    }
}

fn has_mark(ms: &Vec<u32>, pos: u32) -> (r: bool)
    requires
        ascends(ms@),
    ensures
        r == positions_of(ms@).contains(pos as int),
{
    let mut lo: usize = 0;
    let mut hi: usize = ms.len();
    while lo < hi
        invariant
            ascends(ms@),
            lo <= hi <= ms@.len(),
            forall|i: int| 0 <= i < lo ==> #[trigger] ms@[i] < pos,
            forall|i: int| hi <= i < ms@.len() ==> #[trigger] ms@[i] > pos,
        decreases hi - lo,
    {
        let mid: usize = lo + (hi - lo) / 2;
        let m: u32 = ms[mid];
        if m == pos {
            return true;
        }
        if m < pos {
            proof {
                assert forall|i: int| 0 <= i < mid + 1 implies #[trigger] ms@[i] < pos by {
                    if i < mid {
                        assert(ms@[i] < ms@[mid as int]);
                    }
                }
            }
            lo = mid + 1;
        } else {
            proof {
                assert forall|i: int| mid <= i < ms@.len() implies #[trigger] ms@[i] > pos by {
                    if i > mid {
                        assert(ms@[mid as int] < ms@[i]);
                    }
                }
            }
            hi = mid;
        }
    }
    false
}

fn render(cs: &Chars, tokens: &Vec<Token>, ms: &Vec<u32>, from: usize, to: usize, start: &str, stop: &str) -> (r: String)
    requires
        cs.wf(),
        ascends(ms@),
        forall|k: int| 0 <= k < tokens@.len() ==> (#[trigger] tokens@[k]).pos < u32::MAX,
    ensures
        r@ == rendered(cs.chars@, token_views(tokens@), positions_of(ms@), 0, from as int, from as int, to as int, start@, stop@),
{
    let ghost text = cs.chars@;
    let ghost ts = token_views(tokens@);
    let ghost set = positions_of(ms@);
    let ghost all = rendered(text, ts, set, 0, from as int, from as int, to as int, start@, stop@);
    let mut out: String = String::new();
    let mut at: usize = from;
    let mut i: usize = 0;
    proof {
        assert(out@ + all =~= all);
    }
    while i < tokens.len()
        invariant
            cs.wf(),
            ascends(ms@),
            text == cs.chars@,
            ts == token_views(tokens@),
            set == positions_of(ms@),
            i <= tokens@.len(),
            forall|k: int| 0 <= k < tokens@.len() ==> (#[trigger] tokens@[k]).pos < u32::MAX,
            out@ + rendered(text, ts, set, i as int, at as int, from as int, to as int, start@, stop@) == all,
        decreases tokens@.len() - i,
    {
        let t: &Token = &tokens[i];
        proof {
            assert(ts[i as int] == t@);
        }
        if t.start < from || t.end > to || !has_mark(ms, t.pos) {
            i = i + 1;
            continue;
        }
        // A run of consecutive marked words.
        let mut j: usize = i;
        let mut more: bool = true;
        while more
            invariant
                cs.wf(),
                ascends(ms@),
                text == cs.chars@,
                ts == token_views(tokens@),
                set == positions_of(ms@),
                i <= j < tokens@.len(),
                forall|k: int| 0 <= k < tokens@.len() ==> (#[trigger] tokens@[k]).pos < u32::MAX,
                run_end(text, ts, set, to as int, i as int) == run_end(text, ts, set, to as int, j as int),
                !more ==> run_end(text, ts, set, to as int, j as int) == j,
            decreases tokens@.len() - j, (if more { 1int } else { 0int }),
        {
            let n: usize = tokens.len();
            proof {
                assert(ts[j as int] == tokens@[j as int]@);
                assert(tokens@[j as int].pos < u32::MAX);
                if j + 1 < n {
                    assert(ts[j + 1] == tokens@[j + 1]@);
                }
            }
            if j + 1 < n && tokens[j + 1].pos == tokens[j].pos + 1 && tokens[j + 1].end <= to && has_mark(ms, tokens[j + 1].pos) {
                let mut between: String = String::new();
                cs.put(tokens[j].end, tokens[j + 1].start, &mut between);
                proof {
                    assert(between@ =~= byte_slice(text, ts[j as int].end, ts[j + 1].start));
                }
                if joinable(between.as_str()) {
                    j = j + 1;
                } else {
                    more = false;
                }
            } else {
                more = false;
            }
        }
        let (a, b): (usize, usize) = (tokens[i].start, tokens[j].end);
        let ghost was = out@;
        cs.put(at, a, &mut out);
        put_text(&mut out, start);
        cs.put(a, b, &mut out);
        put_text(&mut out, stop);
        proof {
            assert(ts[j as int] == tokens@[j as int]@);
            let rest = rendered(text, ts, set, j + 1, b as int, from as int, to as int, start@, stop@);
            assert(was + (byte_slice(text, at as int, a as int) + start@ + byte_slice(text, a as int, b as int) + stop@ + rest) =~= out@ + rest);
        }
        at = b;
        i = j + 1;
    }
    cs.put(at, to, &mut out);
    out
}

/// `text` with the matched words wrapped in `start` / `stop`; consecutive
/// matched words share one pair (`<b>big bad wolf</b>`, `<b>e-mail</b>`)
/// unless punctuation and spaces part them.
pub fn highlight(text: &str, q: &Query, analyzer: &mut Analyzer, start: &str, stop: &str) -> (r: String)
    requires
        fits(text@),
        q.view().valid(),
    ensures
        r@ == rendered(text@, tokens_of(text@), marks(q.view(), doc_of(text@)), 0, 0, 0, byte_len(text@), start@, stop@),
        only_marked(r@, text@, start@, stop@),
{
    let tokens: Vec<Token> = analyzer.for_each_token(text);
    let ms: Vec<u32> = DocWords::new(text, analyzer).marks(q);
    let cs: Chars = Chars::new(text);
    let len: usize = crate::text::utf8_len(cs.chars.as_slice());
    proof {
        let ts = tokens_of(text@);
        assert forall|k: int| 0 <= k < ts.len() implies 0 <= (#[trigger] ts[k]).start by {
            assert(ts[k] == tokens@[k]@);
        }
        lemma_bytes_mono(text@, 0, text@.len() as int);
        markers_only_insert(text@, ts, marks(q.view(), doc_of(text@)), 0, 0, 0, byte_len(text@), start@, stop@);
        lemma_whole(text@);
    }
    render(&cs, &tokens, &ms, 0, len, start, stop)
}

// ---------------------------------------------------------------------------
// Snippets
// ---------------------------------------------------------------------------

/// How many of the words from `a` to `b` are marked.
pub open spec fn marked_in(ts: Seq<TokenView>, ms: Set<int>, a: int, b: int) -> int
    decreases b - a,
{
    if a >= b {
        0
    } else {
        marked_in(ts, ms, a, b - 1) + (if ms.contains(ts[b - 1].pos) { 1int } else { 0int })
    }
}

/// The window of `w` words with the most marks starts at `at`, the earliest
/// on ties.
pub open spec fn densest(ts: Seq<TokenView>, ms: Set<int>, w: int, at: int) -> bool {
    &&& 0 <= at <= ts.len() - w
    &&& forall|i: int| 0 <= i <= ts.len() - w ==> #[trigger] marked_in(ts, ms, i, i + w) <= marked_in(ts, ms, at, at + w)
    &&& forall|i: int| 0 <= i < at ==> #[trigger] marked_in(ts, ms, i, i + w) < marked_in(ts, ms, at, at + w)
}

/// The first marked word from `i` on, before `end`.
pub open spec fn first_marked(ts: Seq<TokenView>, ms: Set<int>, i: int, end: int) -> Option<int>
    decreases end - i,
{
    if i >= end {
        None
    } else if ms.contains(ts[i].pos) {
        Some(i)
    } else {
        first_marked(ts, ms, i + 1, end)
    }
}

/// Where a snippet of `w` words starts: a little before the first match of
/// the densest window, if it has room.
pub open spec fn snippet_start(ts: Seq<TokenView>, ms: Set<int>, w: int, at: int) -> int {
    match first_marked(ts, ms, at, at + w) {
        Some(f) => if f - at > w / 4 {
            if f - w / 4 < ts.len() - w {
                f - w / 4
            } else {
                ts.len() - w
            }
        } else {
            at
        },
        None => at,
    }
}

/// The snippet of `w` words from word `at` on.
pub open spec fn snippet_text(text: Seq<char>, ts: Seq<TokenView>, ms: Set<int>, w: int, at: int, start: Seq<char>, stop: Seq<char>) -> Seq<char> {
    let (from, to) = (ts[at].start, ts[at + w - 1].end);
    (if at > 0 { seq!['…'] } else { Seq::empty() }) + rendered(text, ts, ms, 0, from, from, to, start, stop) + (if at + w < ts.len() {
        seq!['…']
    } else {
        Seq::empty()
    })
}

/// The snippet around the densest window of `w` words.
pub open spec fn is_snippet(text: Seq<char>, ts: Seq<TokenView>, ms: Set<int>, w: int, start: Seq<char>, stop: Seq<char>, r: Seq<char>) -> bool {
    exists|at: int| #[trigger] densest(ts, ms, w, at) && r == snippet_text(text, ts, ms, w, snippet_start(ts, ms, w, at), start, stop)
}

/// The smaller of two numbers.
pub open spec fn clipped(a: int, b: int) -> int {
    if a < b {
        a
    } else {
        b
    }
}

proof fn lemma_marked_shift(ts: Seq<TokenView>, ms: Set<int>, a: int, b: int)
    requires
        a < b,
    ensures
        marked_in(ts, ms, a + 1, b) == marked_in(ts, ms, a, b) - (if ms.contains(ts[a].pos) { 1int } else { 0int }),
        0 <= marked_in(ts, ms, a, b) <= b - a,
    decreases b - a,
{
    if a + 1 < b {
        lemma_marked_shift(ts, ms, a, b - 1);
    } else {
        assert(marked_in(ts, ms, a, a) == 0);
        assert(marked_in(ts, ms, a + 1, a + 1) == 0);
    }
}

/// Up to `words` words of `text` around its densest run of matched words,
/// highlighted, with `…` where text was cut. The start of the text if
/// nothing matched.
pub fn snippet(text: &str, q: &Query, analyzer: &mut Analyzer, start: &str, stop: &str, words: usize) -> (r: String)
    requires
        fits(text@),
        q.view().valid(),
    ensures
        ({
            let (ts, ms) = (tokens_of(text@), marks(q.view(), doc_of(text@)));
            &&& ts.len() == 0 || words == 0 ==> r@.len() == 0
            &&& ts.len() > 0 && words > 0 ==> is_snippet(text@, ts, ms, clipped(words as int, ts.len() as int), start@, stop@, r@)
            &&& ts.len() > 0 && words > 0 ==> exists|at: int, w: int| #[trigger] shows(text@, ts, ms, words as int, at, w, start@, stop@, r@)
        }),
{
    let r: String = cut_snippet(text, q, analyzer, start, stop, words);
    proof {
        let (ts, ms) = (tokens_of(text@), marks(q.view(), doc_of(text@)));
        if ts.len() > 0 && words > 0 {
            snippet_shows_matches(text@, ts, ms, words as int, start@, stop@, r@);
        }
    }
    r
}

fn cut_snippet(text: &str, q: &Query, analyzer: &mut Analyzer, start: &str, stop: &str, words: usize) -> (r: String)
    requires
        fits(text@),
        q.view().valid(),
    ensures
        in_order(tokens_of(text@)),
        forall|k: int| 0 <= k < tokens_of(text@).len() ==> 0 <= (#[trigger] tokens_of(text@)[k]).start,
        ({
            let (ts, ms) = (tokens_of(text@), marks(q.view(), doc_of(text@)));
            &&& ts.len() == 0 || words == 0 ==> r@.len() == 0
            &&& ts.len() > 0 && words > 0 ==> is_snippet(text@, ts, ms, clipped(words as int, ts.len() as int), start@, stop@, r@)
        }),
{
    let tokens: Vec<Token> = analyzer.for_each_token(text);
    let n: usize = tokens.len();
    let ghost ts = tokens_of(text@);
    let ghost ms_set = marks(q.view(), doc_of(text@));
    proof {
        assert(ts.len() == n);
        assert forall|k: int| 0 <= k < ts.len() implies 0 <= (#[trigger] ts[k]).start by {
            assert(ts[k] == tokens@[k]@);
        }
    }
    if n == 0 || words == 0 {
        return String::new();
    }
    let ms: Vec<u32> = DocWords::new(text, analyzer).marks(q);
    let w: usize = if words < n {
        words
    } else {
        n
    };
    let marked: Vec<bool> = marked_words(&tokens, &ms);
    // Window over token indexes with the most marks (earliest on ties).
    let mut count: usize = 0;
    let mut i: usize = 0;
    while i < w
        invariant
            i <= w <= n,
            n == ts.len() == marked@.len(),
            forall|k: int| 0 <= k < n ==> #[trigger] marked@[k] == ms_set.contains(ts[k].pos),
            count <= i,
            count == marked_in(ts, ms_set, 0, i as int),
        decreases w - i,
    {
        if marked[i] {
            count = count + 1;
        }
        i = i + 1;
    }
    let mut best: usize = count;
    let mut best_at: usize = 0;
    let mut i: usize = w;
    while i < n
        invariant
            0 < w <= i <= n,
            n == ts.len() == marked@.len(),
            forall|k: int| 0 <= k < n ==> #[trigger] marked@[k] == ms_set.contains(ts[k].pos),
            count == marked_in(ts, ms_set, i - w, i as int),
            count <= w,
            best_at <= i - w,
            best == marked_in(ts, ms_set, best_at as int, best_at + w),
            forall|k: int| 0 <= k <= i - w ==> #[trigger] marked_in(ts, ms_set, k, k + w) <= best,
            forall|k: int| 0 <= k < best_at ==> #[trigger] marked_in(ts, ms_set, k, k + w) < best,
        decreases n - i,
    {
        proof {
            lemma_marked_shift(ts, ms_set, i - w, i + 1);
            lemma_marked_shift(ts, ms_set, i - w, i as int);
            assert(i - w + 1 + w == i + 1);
            lemma_marked_shift(ts, ms_set, i - w + 1, i + 1);
        }
        let add: usize = if marked[i] {
            1
        } else {
            0
        };
        let gone: usize = if marked[i - w] {
            1
        } else {
            0
        };
        count = count + add - gone;
        if count > best {
            best = count;
            best_at = i + 1 - w;
        }
        proof {
            assert forall|k: int| 0 <= k <= i + 1 - w implies #[trigger] marked_in(ts, ms_set, k, k + w) <= best by {
                if k == i + 1 - w {
                    assert(k + w == i + 1);
                }
            }
        }
        i = i + 1;
    }
    proof {
        assert(densest(ts, ms_set, w as int, best_at as int));
    }
    // Start the window a little before its first match, if it has room.
    let ghost at0 = best_at as int;
    let mut f: usize = best_at;
    while f < best_at + w && !marked[f]
        invariant
            best_at <= f <= best_at + w <= n,
            n == ts.len() == marked@.len(),
            forall|k: int| 0 <= k < n ==> #[trigger] marked@[k] == ms_set.contains(ts[k].pos),
            first_marked(ts, ms_set, best_at as int, best_at + w) == first_marked(ts, ms_set, f as int, best_at + w),
        decreases best_at + w - f,
    {
        f = f + 1;
    }
    let lead: usize = w / 4;
    if f < best_at + w && f - best_at > lead {
        best_at = if f - lead < n - w {
            f - lead
        } else {
            n - w
        };
    }
    proof {
        assert(best_at == snippet_start(ts, ms_set, w as int, at0));
        assert(ts[best_at as int] == tokens@[best_at as int]@);
        assert(ts[best_at + w - 1] == tokens@[best_at + w - 1]@);
    }
    let cs: Chars = Chars::new(text);
    let (from, to): (usize, usize) = (tokens[best_at].start, tokens[best_at + w - 1].end);
    let mut out: String = String::new();
    if best_at > 0 {
        out.push('…');
    }
    let body: String = render(&cs, &tokens, &ms, from, to, start, stop);
    put_text(&mut out, body.as_str());
    if best_at + w < n {
        out.push('…');
    }
    proof {
        assert(out@ =~= snippet_text(text@, ts, ms_set, w as int, best_at as int, start@, stop@));
    }
    out
}

/// Whether each word is marked.
fn marked_words(tokens: &Vec<Token>, ms: &Vec<u32>) -> (r: Vec<bool>)
    requires
        ascends(ms@),
    ensures
        r@.len() == tokens@.len(),
        forall|k: int| 0 <= k < r@.len() ==> #[trigger] r@[k] == positions_of(ms@).contains(token_views(tokens@)[k].pos),
{
    let mut out: Vec<bool> = Vec::new();
    let mut i: usize = 0;
    while i < tokens.len()
        invariant
            ascends(ms@),
            i <= tokens@.len(),
            out@.len() == i,
            forall|k: int| 0 <= k < i ==> #[trigger] out@[k] == positions_of(ms@).contains(token_views(tokens@)[k].pos),
        decreases tokens@.len() - i,
    {
        proof {
            assert(token_views(tokens@)[i as int] == tokens@[i as int]@);
        }
        out.push(has_mark(ms, tokens[i].pos));
        i = i + 1;
    }
    out
}

// ---------------------------------------------------------------------------
// Laws
// ---------------------------------------------------------------------------

/// The parts of a text one after the other.
pub open spec fn joined(parts: Seq<Seq<char>>) -> Seq<char>
    decreases parts.len(),
{
    if parts.len() == 0 {
        Seq::empty()
    } else if parts.len() == 1 {
        parts[0]
    } else {
        parts[0] + parts[1] + joined(parts.skip(2))
    }
}

/// The same with every second part between markers.
pub open spec fn wrapped(parts: Seq<Seq<char>>, start: Seq<char>, stop: Seq<char>) -> Seq<char>
    decreases parts.len(),
{
    if parts.len() == 0 {
        Seq::empty()
    } else if parts.len() == 1 {
        parts[0]
    } else {
        parts[0] + start + parts[1] + stop + wrapped(parts.skip(2), start, stop)
    }
}

/// `r` is `text` with markers put in: a `start` and a `stop` in turn, with a
/// part of the text in between. Without the markers it is `text`.
pub open spec fn only_marked(r: Seq<char>, text: Seq<char>, start: Seq<char>, stop: Seq<char>) -> bool {
    exists|parts: Seq<Seq<char>>| parts.len() % 2 == 1 && #[trigger] joined(parts) == text && wrapped(parts, start, stop) == r
}

/// Highlighting only inserts markers: what is rendered from byte `at` to byte
/// `to` is that part of the text, with pairs of markers put in.
pub proof fn markers_only_insert(
    text: Seq<char>,
    ts: Seq<TokenView>,
    ms: Set<int>,
    i: int,
    at: int,
    from: int,
    to: int,
    start: Seq<char>,
    stop: Seq<char>,
)
    requires
        in_order(ts),
        0 <= i <= ts.len(),
        at <= to,
        forall|k: int| i <= k < ts.len() ==> at <= (#[trigger] ts[k]).start || ts[k].start < from,
    ensures
        only_marked(rendered(text, ts, ms, i, at, from, to, start, stop), byte_slice(text, at, to), start, stop),
    decreases ts.len() - i,
{
    if i >= ts.len() {
        let parts = seq![byte_slice(text, at, to)];
        assert(joined(parts) == byte_slice(text, at, to));
        assert(wrapped(parts, start, stop) == byte_slice(text, at, to));
    } else if ts[i].start < from || ts[i].end > to || !ms.contains(ts[i].pos) {
        markers_only_insert(text, ts, ms, i + 1, at, from, to, start, stop);
    } else {
        let j = run_end(text, ts, ms, to, i);
        lemma_run_end(text, ts, ms, to, i);
        lemma_run_to(text, ts, ms, to, i);
        assert(ts[i].start <= ts[j].end) by {
            if i < j {
                assert(ts[i].end <= ts[j].start);
                assert(ts[i].start <= ts[i].end && ts[j].start <= ts[j].end);
            }
        }
        assert forall|k: int| j + 1 <= k < ts.len() implies ts[j].end <= (#[trigger] ts[k]).start || ts[k].start < from by {
            assert(ts[j].end <= ts[k].start);
        }
        let (a, b) = (ts[i].start, ts[j].end);
        markers_only_insert(text, ts, ms, j + 1, b, from, to, start, stop);
        let rest = rendered(text, ts, ms, j + 1, b, from, to, start, stop);
        let more = choose|parts: Seq<Seq<char>>|
            parts.len() % 2 == 1 && #[trigger] joined(parts) == byte_slice(text, b, to) && wrapped(parts, start, stop) == rest;
        let parts = seq![byte_slice(text, at, a), byte_slice(text, a, b)] + more;
        assert(parts.skip(2) =~= more);
        lemma_slices(text, at, a, b);
        lemma_slices(text, at, b, to);
        assert(joined(parts) =~= byte_slice(text, at, to));
        assert(wrapped(parts, start, stop) =~= rendered(text, ts, ms, i, at, from, to, start, stop));
    }
}

/// The whole text by bytes.
proof fn lemma_whole(text: Seq<char>)
    ensures
        byte_slice(text, 0, byte_len(text)) == text,
{
    let n = text.len() as int;
    if n > 0 {
        lemma_bytes_mono(text, n - 1, n);
        lemma_bytes_mono(text, 0, n - 1);
    }
    lemma_index_is(text, 0, 0);
    lemma_index_is(text, byte_len(text), n);
    assert(byte_slice(text, 0, byte_len(text)) =~= text);
}

proof fn lemma_run_to(text: Seq<char>, ts: Seq<TokenView>, ms: Set<int>, to: int, j: int)
    requires
        0 <= j < ts.len(),
        ts[j].end <= to,
    ensures
        ts[run_end(text, ts, ms, to, j)].end <= to,
    decreases ts.len() - j,
{
    if j + 1 < ts.len() && ts[j + 1].pos == ts[j].pos + 1 && ts[j + 1].end <= to && ms.contains(ts[j + 1].pos) && joins(
        byte_slice(text, ts[j].end, ts[j + 1].start),
    ) {
        lemma_run_to(text, ts, ms, to, j + 1);
    }
}

/// The marked words from word `a` to before word `b`.
pub open spec fn marked_words_in(ts: Seq<TokenView>, ms: Set<int>, a: int, b: int) -> Set<int> {
    Set::new(|k: int| a <= k < b && ms.contains(ts[k].pos))
}

/// Marked words are counted one by one.
pub proof fn marks_are_counted(ts: Seq<TokenView>, ms: Set<int>, a: int, b: int)
    requires
        a <= b,
    ensures
        marked_words_in(ts, ms, a, b).finite(),
        marked_words_in(ts, ms, a, b).len() == marked_in(ts, ms, a, b),
    decreases b - a,
{
    let s = marked_words_in(ts, ms, a, b);
    if a < b {
        marks_are_counted(ts, ms, a, b - 1);
        let t = marked_words_in(ts, ms, a, b - 1);
        if ms.contains(ts[b - 1].pos) {
            assert(s =~= t.insert(b - 1));
        } else {
            assert(s =~= t);
        }
    } else {
        assert(s =~= Set::<int>::empty());
    }
}

/// `r` shows `w` words of the text from word `at` on: as many as are asked for
/// or there are; with as many marked ones as any run of so many words has; if
/// any word of the text is marked, with one among them, and no more than a
/// quarter of the words before the first of these unless the text ends with
/// them; that part of the text with markers put in, and `…` where text was cut.
pub open spec fn shows(
    text: Seq<char>,
    ts: Seq<TokenView>,
    ms: Set<int>,
    words: int,
    at: int,
    w: int,
    start: Seq<char>,
    stop: Seq<char>,
    r: Seq<char>,
) -> bool {
    let n = ts.len() as int;
    &&& 0 < w <= words
    &&& w == words || w == n
    &&& 0 <= at
    &&& at + w <= n
    &&& forall|i: int| 0 <= i <= n - w ==> (#[trigger] marked_words_in(ts, ms, i, i + w)).len() <= marked_words_in(ts, ms, at, at + w).len()
    &&& (exists|k: int| 0 <= k < n && ms.contains((#[trigger] ts[k]).pos)) ==> exists|f: int| #[trigger] leads_to(ts, ms, at, w, f)
    &&& exists|body: Seq<char>| #[trigger] only_marked(body, byte_slice(text, ts[at].start, ts[at + w - 1].end), start, stop) && r == (if at == 0 {
        body
    } else {
        seq!['…'] + body
    }) + (if at + w == n {
        Seq::<char>::empty()
    } else {
        seq!['…']
    })
}

/// Word `f` is the first marked one of the `w` words from `at` on, after no more
/// than a quarter of them unless the text ends with them.
pub open spec fn leads_to(ts: Seq<TokenView>, ms: Set<int>, at: int, w: int, f: int) -> bool {
    &&& at <= f < at + w
    &&& ms.contains(ts[f].pos)
    &&& forall|k: int| at <= k < f ==> !ms.contains((#[trigger] ts[k]).pos)
    &&& 4 * (f - at) <= w || at + w == ts.len()
}

proof fn lemma_first_marked(ts: Seq<TokenView>, ms: Set<int>, i: int, end: int)
    requires
        i <= end,
    ensures
        match first_marked(ts, ms, i, end) {
            Some(f) => i <= f < end && ms.contains(ts[f].pos) && forall|k: int| i <= k < f ==> !ms.contains((#[trigger] ts[k]).pos),
            None => forall|k: int| i <= k < end ==> !ms.contains((#[trigger] ts[k]).pos),
        },
    decreases end - i,
{
    if i < end && !ms.contains(ts[i].pos) {
        lemma_first_marked(ts, ms, i + 1, end);
    }
}

/// A snippet shows the densest run of matched words, from a little before its
/// first match on.
pub proof fn snippet_shows_matches(text: Seq<char>, ts: Seq<TokenView>, ms: Set<int>, words: int, start: Seq<char>, stop: Seq<char>, r: Seq<char>)
    requires
        in_order(ts),
        forall|k: int| 0 <= k < ts.len() ==> 0 <= (#[trigger] ts[k]).start,
        words > 0,
        ts.len() > 0,
        is_snippet(text, ts, ms, clipped(words, ts.len() as int), start, stop, r),
    ensures
        exists|at: int, w: int| #[trigger] shows(text, ts, ms, words, at, w, start, stop, r),
{
    let n = ts.len() as int;
    let w = clipped(words, n);
    let best = choose|at: int| #[trigger] densest(ts, ms, w, at) && r == snippet_text(text, ts, ms, w, snippet_start(ts, ms, w, at), start, stop);
    let at = snippet_start(ts, ms, w, best);
    lemma_first_marked(ts, ms, best, best + w);
    assert(0 <= at <= n - w);
    let (a, b) = (marked_words_in(ts, ms, best, best + w), marked_words_in(ts, ms, at, at + w));
    marks_are_counted(ts, ms, best, best + w);
    marks_are_counted(ts, ms, at, at + w);
    assert(a.subset_of(b)) by {
        assert forall|k: int| a.contains(k) implies b.contains(k) by {
            if let Some(f) = first_marked(ts, ms, best, best + w) {
                assert(k >= f) by {
                    if k < f {
                        assert(!ms.contains(ts[k].pos));
                    }
                }
            }
        }
    }
    vstd::set_lib::lemma_len_subset(a, b);
    assert forall|i: int| 0 <= i <= n - w implies (#[trigger] marked_words_in(ts, ms, i, i + w)).len() <= b.len() by {
        marks_are_counted(ts, ms, i, i + w);
        assert(marked_in(ts, ms, i, i + w) <= marked_in(ts, ms, best, best + w));
    }
    if exists|k: int| 0 <= k < n && ms.contains((#[trigger] ts[k]).pos) {
        let k = choose|k: int| 0 <= k < n && ms.contains((#[trigger] ts[k]).pos);
        let i = if k + w <= n {
            k
        } else {
            n - w
        };
        let c = marked_words_in(ts, ms, i, i + w);
        assert(c.contains(k));
        marks_are_counted(ts, ms, i, i + w);
        vstd::set_lib::lemma_len_subset(set![k], c);
        assert(a.len() >= 1) by {
            assert(marked_in(ts, ms, i, i + w) <= marked_in(ts, ms, best, best + w));
        }
        assert(first_marked(ts, ms, best, best + w) is Some) by {
            if first_marked(ts, ms, best, best + w) is None {
                assert(a =~= Set::<int>::empty()) by {
                    assert forall|x: int| !a.contains(x) by {
                        if a.contains(x) {
                            assert(ms.contains(ts[x].pos));
                        }
                    }
                }
            }
        }
        let f = first_marked(ts, ms, best, best + w)->0;
        assert(at >= best);
        assert(leads_to(ts, ms, at, w, f));
    }
    let (from, to) = (ts[at].start, ts[at + w - 1].end);
    let body = rendered(text, ts, ms, 0, from, from, to, start, stop);
    assert(from <= to) by {
        if w > 1 {
            assert(ts[at].end <= ts[at + w - 1].start);
        }
        assert(ts[at].start <= ts[at].end && ts[at + w - 1].start <= ts[at + w - 1].end);
    }
    markers_only_insert(text, ts, ms, 0, from, from, to, start, stop);
    assert(only_marked(body, byte_slice(text, from, to), start, stop));
    let none = Seq::<char>::empty();
    assert(none + body =~= body);
    assert(r =~= (if at == 0 {
        body
    } else {
        seq!['…'] + body
    }) + (if at + w == n {
        none
    } else {
        seq!['…']
    }));
    assert(shows(text, ts, ms, words, at, w, start, stop, r));
}

// ---------------------------------------------------------------------------
// What is wrapped
// ---------------------------------------------------------------------------

proof fn lemma_bytes_joined(a: Seq<char>, b: Seq<char>, n: int)
    requires
        0 <= n <= a.len() + b.len(),
    ensures
        n <= a.len() ==> bytes_before(a + b, n) == bytes_before(a, n),
        n >= a.len() ==> bytes_before(a + b, n) == byte_len(a) + bytes_before(b, n - a.len()),
    decreases n,
{
    if n > 0 {
        lemma_bytes_joined(a, b, n - 1);
        if n <= a.len() {
            assert((a + b)[n - 1] == a[n - 1]);
        } else {
            assert((a + b)[n - 1] == b[n - 1 - a.len()]);
        }
    }
}

/// A part of a text is found by the bytes before it and its own.
pub proof fn bytes_cut_texts(a: Seq<char>, b: Seq<char>, c: Seq<char>)
    ensures
        byte_slice(a + b + c, byte_len(a), byte_len(a) + byte_len(b)) == b,
{
    let s = a + b + c;
    let (x, y) = (a.len() as int, (a.len() + b.len()) as int);
    assert(s =~= a + (b + c));
    lemma_bytes_joined(a, b + c, x);
    lemma_bytes_joined(a + b, c, y);
    lemma_bytes_joined(a, b, y);
    assert(bytes_before(s, x) == byte_len(a));
    assert(bytes_before(s, y) == byte_len(a) + byte_len(b));
    if x > 0 {
        lemma_bytes_mono(s, x - 1, x);
    }
    if y > 0 {
        lemma_bytes_mono(s, y - 1, y);
    }
    lemma_index_is(s, byte_len(a), x);
    lemma_index_is(s, byte_len(a) + byte_len(b), y);
    assert(byte_slice(s, byte_len(a), byte_len(a) + byte_len(b)) =~= b);
}

/// Nothing but white space, or none of it.
pub open spec fn all_or_no_space(s: Seq<char>) -> bool {
    ||| forall|i: int| 0 <= i < s.len() ==> white_space(#[trigger] s[i])
    ||| forall|i: int| 0 <= i < s.len() ==> !white_space(#[trigger] s[i])
}

proof fn lemma_spaces(s: Seq<char>, n: int)
    requires
        0 <= n <= s.len(),
    ensures
        0 <= spaces(s, n) <= n,
        spaces(s, n) == 0 <==> forall|i: int| 0 <= i < n ==> !white_space(#[trigger] s[i]),
        spaces(s, n) == n <==> forall|i: int| 0 <= i < n ==> white_space(#[trigger] s[i]),
    decreases n,
{
    if n > 0 {
        lemma_spaces(s, n - 1);
        assert(white_space(s[n - 1]) || !white_space(s[n - 1]));
    }
}

/// Two marked words next to each other.
pub open spec fn neighbours(text: Seq<char>, a: TokenView, b: TokenView) -> bool {
    b.pos == a.pos + 1 && all_or_no_space(byte_slice(text, a.end, b.start))
}

/// A marked word between bytes `from` and `to`.
pub open spec fn is_shown(t: TokenView, ms: Set<int>, from: int, to: int) -> bool {
    ms.contains(t.pos) && from <= t.start && t.end <= to
}

/// Words `r.0` to `r.1` are marked neighbours, and no marked neighbour
/// follows.
pub open spec fn is_run(text: Seq<char>, ts: Seq<TokenView>, ms: Set<int>, from: int, to: int, r: (int, int)) -> bool {
    &&& 0 <= r.0 <= r.1 < ts.len()
    &&& forall|k: int| r.0 <= k <= r.1 ==> is_shown(#[trigger] ts[k], ms, from, to)
    &&& forall|k: int| r.0 < k <= r.1 ==> neighbours(text, ts[k - 1], #[trigger] ts[k])
    &&& r.1 + 1 < ts.len() && is_shown(ts[r.1 + 1], ms, from, to) ==> !neighbours(text, ts[r.1], ts[r.1 + 1])
}

/// The text from byte `at` to byte `to` with each run from `k` on between
/// markers.
pub open spec fn woven(
    text: Seq<char>,
    ts: Seq<TokenView>,
    runs: Seq<(int, int)>,
    k: int,
    at: int,
    to: int,
    start: Seq<char>,
    stop: Seq<char>,
) -> Seq<char>
    decreases runs.len() - k,
{
    if k >= runs.len() {
        byte_slice(text, at, to)
    } else {
        let (a, b) = (ts[runs[k].0].start, ts[runs[k].1].end);
        byte_slice(text, at, a) + start + byte_slice(text, a, b) + stop + woven(text, ts, runs, k + 1, b, to, start, stop)
    }
}

/// Word `k` lies in one of the runs.
pub open spec fn in_a_run(runs: Seq<(int, int)>, k: int) -> bool {
    exists|x: int| 0 <= x < runs.len() && (#[trigger] runs[x]).0 <= k <= runs[x].1
}

proof fn lemma_run_shown(text: Seq<char>, ts: Seq<TokenView>, ms: Set<int>, from: int, to: int, i: int, j: int)
    requires
        in_order(ts),
        0 <= i <= j < ts.len(),
        forall|k: int| i <= k <= j ==> is_shown(#[trigger] ts[k], ms, from, to),
        forall|k: int| i < k <= j ==> neighbours(text, ts[k - 1], #[trigger] ts[k]),
    ensures
        is_run(text, ts, ms, from, to, (i, run_end(text, ts, ms, to, j))),
    decreases ts.len() - j,
{
    if j + 1 < ts.len() {
        let between = byte_slice(text, ts[j].end, ts[j + 1].start);
        lemma_spaces(between, between.len() as int);
        assert(joins(between) == all_or_no_space(between));
        assert(is_shown(ts[j], ms, from, to));
        assert(ts[j].end <= ts[j + 1].start && ts[j].start <= ts[j].end);
        if ts[j + 1].pos == ts[j].pos + 1 && ts[j + 1].end <= to && ms.contains(ts[j + 1].pos) && joins(between) {
            assert(is_shown(ts[j + 1], ms, from, to));
            lemma_run_shown(text, ts, ms, from, to, i, j + 1);
        }
    }
}

proof fn lemma_woven_skip(text: Seq<char>, ts: Seq<TokenView>, r: (int, int), runs: Seq<(int, int)>, k: int, at: int, to: int, start: Seq<char>, stop: Seq<char>)
    requires
        0 <= k <= runs.len(),
    ensures
        woven(text, ts, seq![r] + runs, k + 1, at, to, start, stop) == woven(text, ts, runs, k, at, to, start, stop),
    decreases runs.len() - k,
{
    let all = seq![r] + runs;
    if k < runs.len() {
        assert(all[k + 1] == runs[k]);
        lemma_woven_skip(text, ts, r, runs, k + 1, ts[runs[k].1].end, to, start, stop);
    }
}

/// Every marked word is wrapped, with its marked neighbours in one pair of
/// markers, and nothing else is.
pub proof fn matches_are_wrapped(
    text: Seq<char>,
    ts: Seq<TokenView>,
    ms: Set<int>,
    i: int,
    at: int,
    from: int,
    to: int,
    start: Seq<char>,
    stop: Seq<char>,
) -> (runs: Seq<(int, int)>)
    requires
        in_order(ts),
        0 <= i <= ts.len(),
    ensures
        rendered(text, ts, ms, i, at, from, to, start, stop) == woven(text, ts, runs, 0, at, to, start, stop),
        forall|x: int| 0 <= x < runs.len() ==> is_run(text, ts, ms, from, to, #[trigger] runs[x]) && i <= runs[x].0,
        forall|x: int, y: int| 0 <= x < y < runs.len() ==> (#[trigger] runs[x]).1 < (#[trigger] runs[y]).0,
        forall|k: int| i <= k < ts.len() && is_shown(#[trigger] ts[k], ms, from, to) ==> in_a_run(runs, k),
    decreases ts.len() - i,
{
    if i >= ts.len() {
        Seq::empty()
    } else if ts[i].start < from || ts[i].end > to || !ms.contains(ts[i].pos) {
        matches_are_wrapped(text, ts, ms, i + 1, at, from, to, start, stop)
    } else {
        let j = run_end(text, ts, ms, to, i);
        lemma_run_end(text, ts, ms, to, i);
        lemma_run_shown(text, ts, ms, from, to, i, i);
        let more = matches_are_wrapped(text, ts, ms, j + 1, ts[j].end, from, to, start, stop);
        let r = (i, j);
        let runs = seq![r] + more;
        lemma_woven_skip(text, ts, r, more, 0, ts[j].end, to, start, stop);
        assert(runs[0] == r);
        assert forall|x: int| 0 <= x < runs.len() implies is_run(text, ts, ms, from, to, #[trigger] runs[x]) && i <= runs[x].0 by {
            if x > 0 {
                assert(runs[x] == more[x - 1]);
            }
        }
        assert forall|x: int, y: int| 0 <= x < y < runs.len() implies (#[trigger] runs[x]).1 < (#[trigger] runs[y]).0 by {
            assert(runs[y] == more[y - 1]);
            if x > 0 {
                assert(runs[x] == more[x - 1]);
            }
        }
        assert forall|k: int| i <= k < ts.len() && is_shown(#[trigger] ts[k], ms, from, to) implies in_a_run(runs, k) by {
            if k <= j {
                assert(runs[0].0 <= k <= runs[0].1);
            } else {
                assert(in_a_run(more, k));
                let x = choose|x: int| 0 <= x < more.len() && (#[trigger] more[x]).0 <= k <= more[x].1;
                assert(runs[x + 1] == more[x]);
            }
        }
        runs
    }
}

} // verus!
