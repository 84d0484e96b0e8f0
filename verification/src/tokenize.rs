//! Analyzer: text -> terms.
//!
//! Unicode (UAX #29) word boundaries, then case folding and accent folding
//! (NFKD, combining marks dropped). No stemming and no stop words.
//! Positions are reported so phrase and span queries can reuse the same
//! analyzer.

use vstd::prelude::*;
use unicode_normalization::UnicodeNormalization;
use unicode_segmentation::UnicodeSegmentation;
use crate::text::{
    byte_len, bytes_before, chars_of, compare, char_less, fits, is_low, lemma_bytes_mono, lemma_bytes_sub, string_of, utf8_len,
};
use crate::words;
use crate::words::{bit, lemma_word_ops, lemma_word_shift, word_bit};

verus! {

/// Tokens longer than this (in bytes, after folding) are dropped: they are
/// almost always base64 blobs, hashes or URLs and would bloat the dictionary.
pub const MAX_TERM_BYTES: usize = 64;

// ---------------------------------------------------------------------------
// What the Unicode crates compute
// ---------------------------------------------------------------------------

/// The words of a text under UAX #29, each with its byte offset.
pub uninterp spec fn unicode_words_of(text: Seq<char>) -> Seq<(int, Seq<char>)>;

/// The compatibility decomposition (NFKD) of a text.
pub uninterp spec fn nfkd_of(text: Seq<char>) -> Seq<char>;

/// Whether a character is a combining mark.
pub uninterp spec fn combining(c: char) -> bool;

/// The lower case of a character, which may be several.
pub uninterp spec fn lower_of(c: char) -> Seq<char>;

/// The plain values of a list of words.
pub open spec fn words_view(s: Seq<(usize, String)>) -> Seq<(int, Seq<char>)> {
    s.map_values(|e: (usize, String)| (e.0 as int, e.1@))
}

/// `UnicodeSegmentation::unicode_word_indices`: the words of the text and
/// their byte offsets. The words are substrings that come in text order, do
/// not overlap and are not empty, so none reaches past the end and there are
/// no more of them than characters.
#[verifier::external_body]
fn unicode_words(text: &str) -> (r: Vec<(usize, String)>)
    ensures
        words_view(r@) == unicode_words_of(text@),
        r@.len() <= text@.len(),
        forall|i: int| 0 <= i < r@.len() ==> (#[trigger] r@[i]).0 + byte_len(r@[i].1@) <= byte_len(text@) && r@[i].1@.len() <= text@.len(),
        forall|i: int| 0 <= i < r@.len() ==> (#[trigger] r@[i]).1@.len() > 0,
        forall|i: int, j: int| 0 <= i < j < r@.len() ==> (#[trigger] r@[i]).0 + byte_len(r@[i].1@) <= (#[trigger] r@[j]).0,
{
    text.unicode_word_indices().map(|(at, w)| (at, w.to_owned())).collect()
}

/// `UnicodeNormalization::nfkd`: the characters of the decomposition.
#[verifier::external_body]
fn nfkd(text: &str) -> (r: Vec<char>)
    ensures
        r@ == nfkd_of(text@),
{
    text.nfkd().collect()
}

/// `unicode_normalization::char::is_combining_mark`.
#[verifier::external_body]
fn is_combining_mark(c: char) -> (r: bool)
    ensures
        r == combining(c),
{
    unicode_normalization::char::is_combining_mark(c)
}

/// `char::to_lowercase`: the characters of the lower case.
#[verifier::external_body]
fn to_lowercase(c: char) -> (r: Vec<char>)
    ensures
        r@ == lower_of(c),
{
    c.to_lowercase().collect()
}

// ---------------------------------------------------------------------------
// ASCII words
// ---------------------------------------------------------------------------

pub open spec fn is_letter(b: u8) -> bool {
    97 <= b <= 122 || 65 <= b <= 90
}

pub open spec fn is_numeric(b: u8) -> bool {
    48 <= b <= 57
}

/// Joins letters: `:` `.` `'`.
pub open spec fn joins_letters(b: u8) -> bool {
    b == 58 || b == 46 || b == 39
}

/// Joins digits: `,` `;` `.` `'`.
pub open spec fn joins_digits(b: u8) -> bool {
    b == 44 || b == 59 || b == 46 || b == 39
}

/// Whether byte `i` belongs to a word: a letter, a digit or `_`, or a joiner
/// between two letters or two digits.
pub open spec fn in_word(b: Seq<u8>, i: int) -> bool {
    &&& 0 <= i < b.len()
    &&& {
        ||| is_letter(b[i]) || is_numeric(b[i]) || b[i] == 95
        ||| 0 < i && i + 1 < b.len() && joins_letters(b[i]) && is_letter(b[i - 1]) && is_letter(b[i + 1])
        ||| 0 < i && i + 1 < b.len() && joins_digits(b[i]) && is_numeric(b[i - 1]) && is_numeric(b[i + 1])
    }
}

/// The end of the run of word bytes from `i` on.
pub open spec fn run_end(b: Seq<u8>, i: int) -> int
    decreases b.len() - i,
{
    if in_word(b, i) {
        run_end(b, i + 1)
    } else {
        i
    }
}

/// Whether a run is `_` alone.
pub open spec fn only_connectors(b: Seq<u8>, lo: int, hi: int) -> bool {
    forall|i: int| lo <= i < hi ==> #[trigger] b[i] == 95
}

/// The words from byte `i` on: the maximal runs of word bytes that are not
/// `_` alone.
pub open spec fn word_runs(b: Seq<u8>, i: int) -> Seq<(int, int)>
    decreases b.len() - i,
{
    if i < 0 || i >= b.len() {
        Seq::empty()
    } else if !in_word(b, i) {
        word_runs(b, i + 1)
    } else {
        let e = run_end(b, i);
        let rest = if i < e <= b.len() {
            word_runs(b, e)
        } else {
            Seq::empty()
        };
        if only_connectors(b, i, e) {
            rest
        } else {
            seq![(i, e)] + rest
        }
    }
}

proof fn lemma_run_end(b: Seq<u8>, i: int, e: int)
    requires
        0 <= i <= e,
        forall|k: int| i <= k < e ==> in_word(b, k),
        !in_word(b, e),
    ensures
        run_end(b, i) == e,
    decreases e - i,
{
    if i < e {
        lemma_run_end(b, i + 1, e);
    }
}

proof fn lemma_skip_gap(b: Seq<u8>, i: int, j: int)
    requires
        0 <= i <= j <= b.len(),
        forall|k: int| i <= k < j ==> !in_word(b, k),
    ensures
        word_runs(b, i) == word_runs(b, j),
    decreases j - i,
{
    if i < j {
        lemma_skip_gap(b, i + 1, j);
    }
}

/// Byte classes of one 64-byte block, one bit per byte.
#[derive(Copy, Clone)]
struct Masks {
    /// Letters.
    l: u64,
    /// Digits.
    d: u64,
    /// Letters, digits and `_`.
    w: u64,
    /// Joins letters: `:` `.` `'`.
    mid_l: u64,
    /// Joins digits: `,` `;` `.` `'`.
    mid_n: u64,
}

impl Masks {
    /// The classes of the block that starts at `at`.
    spec fn are(self, b: Seq<u8>, at: int) -> bool {
        forall|j: int|
            #![trigger word_bit(self.l, j)]
            #![trigger word_bit(self.d, j)]
            #![trigger word_bit(self.w, j)]
            #![trigger word_bit(self.mid_l, j)]
            #![trigger word_bit(self.mid_n, j)]
            0 <= j < 64 ==> {
                let (ok, c) = (at + j < b.len(), b[at + j]);
                &&& word_bit(self.l, j) == (ok && is_letter(c))
                &&& word_bit(self.d, j) == (ok && is_numeric(c))
                &&& word_bit(self.w, j) == (ok && (is_letter(c) || is_numeric(c) || c == 95))
                &&& word_bit(self.mid_l, j) == (ok && joins_letters(c))
                &&& word_bit(self.mid_n, j) == (ok && joins_digits(c))
            }
    }

    /// The block of `b` starting at `at` (bytes past the end: none).
    fn of(b: &[u8], at: usize) -> (r: Masks)
        requires
            at + 64 <= usize::MAX,
        ensures
            r.are(b@, at as int),
    {
        let mut l: u64 = 0;
        let mut d: u64 = 0;
        let mut w: u64 = 0;
        let mut ml: u64 = 0;
        let mut mn: u64 = 0;
        let mut i: usize = 0;
        proof {
            lemma_word_ops(0, 0);
        }
        while i < 64 && at + i < b.len()
            invariant
                i <= 64,
                at + 64 <= usize::MAX,
                forall|j: int|
                    #![trigger word_bit(l, j)]
                    #![trigger word_bit(d, j)]
                    #![trigger word_bit(w, j)]
                    #![trigger word_bit(ml, j)]
                    #![trigger word_bit(mn, j)]
                    0 <= j < 64 ==> {
                        let (ok, c) = (j < i && at + j < b@.len(), b@[at + j]);
                        &&& word_bit(l, j) == (ok && is_letter(c))
                        &&& word_bit(d, j) == (ok && is_numeric(c))
                        &&& word_bit(w, j) == (ok && (is_letter(c) || is_numeric(c) || c == 95))
                        &&& word_bit(ml, j) == (ok && joins_letters(c))
                        &&& word_bit(mn, j) == (ok && joins_digits(c))
                    },
            decreases 64 - i,
        {
            let c: u8 = b[at + i];
            if (97 <= c && c <= 122) || (65 <= c && c <= 90) {
                l = words::with_bit(l, i);
                w = words::with_bit(w, i);
            } else if 48 <= c && c <= 57 {
                d = words::with_bit(d, i);
                w = words::with_bit(w, i);
            } else if c == 95 {
                w = words::with_bit(w, i);
            } else {
                if c == 58 || c == 46 || c == 39 {
                    ml = words::with_bit(ml, i);
                }
                if c == 44 || c == 59 || c == 46 || c == 39 {
                    mn = words::with_bit(mn, i);
                }
            }
            i = i + 1;
        }
        Masks { l, d, w, mid_l: ml, mid_n: mn }
    }

    /// Bytes inside words: word bytes, plus joiners between two letters or
    /// two digits. The arguments say whether the bytes just outside the
    /// block are letters or digits.
    fn word_bytes(&self, l_before: bool, d_before: bool, l_after: bool, d_after: bool) -> (r: u64)
        ensures
            forall|j: int| 0 <= j < 64 ==> #[trigger] word_bit(r, j) == {
                let lp = if j > 0 { word_bit(self.l, j - 1) } else { l_before };
                let ln = if j < 63 { word_bit(self.l, j + 1) } else { l_after };
                let dp = if j > 0 { word_bit(self.d, j - 1) } else { d_before };
                let dn = if j < 63 { word_bit(self.d, j + 1) } else { d_after };
                word_bit(self.w, j) || (lp && word_bit(self.mid_l, j) && ln) || (dp && word_bit(self.mid_n, j) && dn)
            },
    {
        let l_prev: u64 = shifted_up(self.l, l_before);
        let l_next: u64 = shifted_down(self.l, l_after);
        let d_prev: u64 = shifted_up(self.d, d_before);
        let d_next: u64 = shifted_down(self.d, d_after);
        let a: u64 = l_prev & self.mid_l;
        let b: u64 = a & l_next;
        let c: u64 = d_prev & self.mid_n;
        let d: u64 = c & d_next;
        let e: u64 = self.w | b;
        proof {
            lemma_word_ops(l_prev, self.mid_l);
            lemma_word_ops(a, l_next);
            lemma_word_ops(d_prev, self.mid_n);
            lemma_word_ops(c, d_next);
            lemma_word_ops(self.w, b);
            lemma_word_ops(e, d);
        }
        e | d
    }
}

fn shifted_up(w: u64, low: bool) -> (r: u64)
    ensures
        forall|j: int| 0 <= j < 64 ==> #[trigger] word_bit(r, j) == if j > 0 { word_bit(w, j - 1) } else { low },
{
    let s: u64 = w << 1u64;
    proof {
        lemma_word_shift(w, 1);
    }
    if low {
        words::with_bit(s, 0)
    } else {
        s
    }
}

fn shifted_down(w: u64, high: bool) -> (r: u64)
    ensures
        forall|j: int| 0 <= j < 64 ==> #[trigger] word_bit(r, j) == if j < 63 { word_bit(w, j + 1) } else { high },
{
    let s: u64 = w >> 1u64;
    proof {
        lemma_word_shift(w, 1);
    }
    if high {
        words::with_bit(s, 63)
    } else {
        s
    }
}

/// The words of an ASCII string, as `(start, end)`. Letters, digits and `_`
/// always join (WB5, WB8-WB10, WB13a/b); a letter-`:`/`.`/`'`-letter or
/// digit-`,`/`;`/`.`/`'`-digit sequence joins across the middle character
/// (WB6/7, WB11/12); everything else breaks (WB999). Runs of `_` alone are
/// not words.
///
/// Branch-light: each 64-byte block becomes bitmasks (letters, digits, word
/// bytes, joiners), the joined middle characters are found with shifts (every
/// join rule is local: it looks at one byte on each side), and word starts
/// and ends are the edges of the resulting runs, taken with trailing-zero
/// counts.
pub fn ascii_words(b: &[u8]) -> (r: Vec<(usize, usize)>)
    requires
        b@.len() + 128 <= usize::MAX,
    ensures
        r@.map_values(|e: (usize, usize)| (e.0 as int, e.1 as int)) == word_runs(b@, 0),
        forall|i: int| 0 <= i < r@.len() ==> (#[trigger] r@[i]).0 < r@[i].1 <= b@.len(),
        forall|i: int, j: int| 0 <= i < j < r@.len() ==> (#[trigger] r@[i]).1 <= (#[trigger] r@[j]).0,
        r@.len() <= b@.len(),
{
    let n: usize = b.len();
    let blocks: usize = (n + 63) / 64;
    let mut bits: Vec<u64> = Vec::new();
    let mut cur: Masks = Masks::of(b, 0);
    let mut l_before: bool = false;
    let mut d_before: bool = false;
    let mut k: usize = 0;
    while k < blocks
        invariant
            n == b@.len(),
            n + 128 <= usize::MAX,
            blocks == (n + 63) / 64,
            k <= blocks,
            bits@.len() == k,
            cur.are(b@, k * 64),
            l_before == (0 < k * 64 <= n && is_letter(b@[k * 64 - 1])),
            d_before == (0 < k * 64 <= n && is_numeric(b@[k * 64 - 1])),
            forall|x: int| 0 <= x < k * 64 ==> #[trigger] bit(bits@, x) == in_word(b@, x),
        decreases blocks - k,
    {
        let at: usize = k * 64;
        let next: Masks = Masks::of(b, at + 64);
        let l_after: bool = at + 64 < n && next.l % 2 == 1;
        let d_after: bool = at + 64 < n && next.d % 2 == 1;
        proof {
            lemma_lowest(next.l);
            lemma_lowest(next.d);
        }
        let m: u64 = cur.word_bytes(l_before, d_before, l_after, d_after);
        let ghost was = bits@;
        bits.push(m);
        proof {
            assert forall|x: int| 0 <= x < (k + 1) * 64 implies #[trigger] bit(bits@, x) == in_word(b@, x) by {
                if x < k * 64 {
                    assert(bit(was, x) == in_word(b@, x));
                    assert(bits@[x / 64] == was[x / 64]);
                } else {
                    let j = x - k * 64;
                    assert(x / 64 == k && x % 64 == j);
                    assert(word_bit(cur.w, j) == (x < n && (is_letter(b@[x]) || is_numeric(b@[x]) || b@[x] == 95)));
                    assert(word_bit(cur.mid_l, j) == (x < n && joins_letters(b@[at + j])));
                    if j > 0 {
                        assert(word_bit(cur.l, j - 1) == (x - 1 < n && is_letter(b@[at + (j - 1)])));
                        assert(word_bit(cur.d, j - 1) == (x - 1 < n && is_numeric(b@[at + (j - 1)])));
                    }
                    if j < 63 {
                        assert(word_bit(cur.l, j + 1) == (x + 1 < n && is_letter(b@[at + (j + 1)])));
                        assert(word_bit(cur.d, j + 1) == (x + 1 < n && is_numeric(b@[at + (j + 1)])));
                    } else {
                        assert(word_bit(next.l, 0) == (x + 1 < n && is_letter(b@[at + 64 + 0])));
                        assert(word_bit(next.d, 0) == (x + 1 < n && is_numeric(b@[at + 64 + 0])));
                    }
                    assert(word_bit(m, j) == in_word(b@, x));
                }
            }
        }
        l_before = at + 63 < n && is_letter_byte(b[at + 63]);
        d_before = at + 63 < n && is_digit_byte(b[at + 63]);
        cur = next;
        k = k + 1;
    }
    let mut out: Vec<(usize, usize)> = Vec::new();
    let ghost view = |e: (usize, usize)| (e.0 as int, e.1 as int);
    let total: usize = blocks * 64;
    let mut at: usize = 0;
    proof {
        assert forall|x: int| x >= n implies !in_word(b@, x) by {}
        assert(out@.map_values(view) + word_runs(b@, 0) =~= word_runs(b@, 0));
    }
    loop
        invariant
            n == b@.len(),
            total == blocks * 64,
            n <= total <= usize::MAX,
            bits@.len() == blocks,
            forall|x: int| 0 <= x < total ==> #[trigger] bit(bits@, x) == in_word(b@, x),
            at <= n,
            view == (|e: (usize, usize)| (e.0 as int, e.1 as int)),
            out@.map_values(view) + word_runs(b@, at as int) == word_runs(b@, 0),
            forall|i: int| 0 <= i < out@.len() ==> (#[trigger] out@[i]).0 < out@[i].1 <= at,
            forall|i: int, j: int| 0 <= i < j < out@.len() ==> (#[trigger] out@[i]).1 <= (#[trigger] out@[j]).0,
            out@.len() <= at,
        decreases n - at,
    {
        let start: usize = words::next_one(bits.as_slice(), at);
        if start >= n {
            proof {
                assert forall|x: int| at <= x < n implies !in_word(b@, x) by {
                    assert(!bit(bits@, x));
                }
                lemma_skip_gap(b@, at as int, n as int);
                assert(word_runs(b@, n as int) == Seq::<(int, int)>::empty());
                assert(out@.map_values(view) + word_runs(b@, at as int) =~= out@.map_values(view));
            }
            return out;
        }
        let end: usize = words::next_zero(bits.as_slice(), start);
        proof {
            assert(bit(bits@, start as int));
            assert forall|x: int| at <= x < start implies !in_word(b@, x) by {
                assert(!bit(bits@, x));
            }
            lemma_skip_gap(b@, at as int, start as int);
            assert forall|x: int| start <= x < end implies in_word(b@, x) by {
                assert(bit(bits@, x));
            }
            assert(end <= n) by {
                if end > n {
                    assert(in_word(b@, n as int));
                }
            }
            lemma_run_end(b@, start as int, end as int);
            assert(end > start);
        }
        // A run of `_` alone is not a word.
        let mut i: usize = start;
        while i < end && b[i] == 95
            invariant
                start <= i <= end <= n,
                n == b@.len(),
                forall|x: int| start <= x < i ==> #[trigger] b@[x] == 95,
            decreases end - i,
        {
            i = i + 1;
        }
        let ghost rest = word_runs(b@, end as int);
        if i < end {
            proof {
                assert(!only_connectors(b@, start as int, end as int)) by {
                    assert(b@[i as int] != 95);
                }
            }
            let ghost was = out@.map_values(view);
            out.push((start, end));
            proof {
                assert(out@.map_values(view) =~= was.push((start as int, end as int)));
                assert(out@.map_values(view) + rest =~= was + (seq![(start as int, end as int)] + rest));
            }
        }
        at = end;
    }
}

fn is_letter_byte(c: u8) -> (r: bool)
    ensures
        r == is_letter(c),
{
    (97 <= c && c <= 122) || (65 <= c && c <= 90)
}

fn is_digit_byte(c: u8) -> (r: bool)
    ensures
        r == is_numeric(c),
{
    48 <= c && c <= 57
}

proof fn lemma_lowest(w: u64)
    ensures
        (w % 2 == 1) == word_bit(w, 0),
{
    assert((w % 2 == 1) <==> ((w >> 0u64) & 1 == 1)) by (bit_vector);
}

// ---------------------------------------------------------------------------
// Words of any text
// ---------------------------------------------------------------------------

/// ASCII whitespace (UAX #29 WSegSpace, CR, LF, Newline, or tab).
pub open spec fn is_space(c: char) -> bool {
    let x = c as u32;
    x == 32 || 9 <= x <= 13
}

/// Whether text may be cut before character `i`: where ASCII whitespace meets
/// an ASCII non-space.
pub open spec fn is_cut(cs: Seq<char>, i: int) -> bool {
    is_space(cs[i - 1]) && is_low(cs[i]) && !is_space(cs[i])
}

/// The first character from `i` on that is not ASCII.
pub open spec fn first_high(cs: Seq<char>, i: int) -> int
    decreases cs.len() - i,
{
    if i < cs.len() && is_low(cs[i]) {
        first_high(cs, i + 1)
    } else {
        i
    }
}

/// The last cut at or before `i`, and no earlier than `from`.
pub open spec fn cut_before(cs: Seq<char>, from: int, i: int) -> int
    decreases i - from,
{
    if i <= from || is_cut(cs, i) {
        i
    } else {
        cut_before(cs, from, i - 1)
    }
}

/// The first cut at or after `i`, or the end.
pub open spec fn cut_after(cs: Seq<char>, i: int) -> int
    decreases cs.len() - i,
{
    if i >= cs.len() || is_cut(cs, i) {
        i
    } else {
        cut_after(cs, i + 1)
    }
}

/// The bytes of ASCII characters.
pub open spec fn low_bytes(cs: Seq<char>) -> Seq<u8> {
    cs.map_values(|c: char| c as u8)
}

/// The words of the ASCII stretch `lo..hi`, with their byte offsets.
pub open spec fn ascii_part(cs: Seq<char>, lo: int, hi: int) -> Seq<(int, Seq<char>)> {
    let piece = cs.subrange(lo, hi);
    word_runs(low_bytes(piece), 0).map_values(|e: (int, int)| (bytes_before(cs, lo) + e.0, piece.subrange(e.0, e.1)))
}

/// The words of the stretch `lo..hi` under the Unicode rules.
pub open spec fn unicode_part(cs: Seq<char>, lo: int, hi: int) -> Seq<(int, Seq<char>)> {
    unicode_words_of(cs.subrange(lo, hi)).map_values(|e: (int, Seq<char>)| (bytes_before(cs, lo) + e.0, e.1))
}

/// The words from character `pos` on, with their byte offsets: the pieces
/// between cuts that hold a non-ASCII character by the Unicode rules, the rest
/// by the ASCII ones.
pub open spec fn words_from(cs: Seq<char>, pos: int) -> Seq<(int, Seq<char>)>
    decreases cs.len() - pos,
{
    if pos < 0 || pos >= cs.len() {
        Seq::empty()
    } else {
        let q = first_high(cs, pos);
        if q >= cs.len() {
            ascii_part(cs, pos, cs.len() as int)
        } else {
            let lo = cut_before(cs, pos, q);
            let hi = cut_after(cs, q + 1);
            let rest = if pos < hi <= cs.len() {
                words_from(cs, hi)
            } else {
                Seq::empty()
            };
            ascii_part(cs, pos, lo) + unicode_part(cs, lo, hi) + rest
        }
    }
}

fn space(c: char) -> (r: bool)
    ensures
        r == is_space(c),
{
    let x: u32 = c as u32;
    x == 32 || (9 <= x && x <= 13)
}

fn cut(cs: &[char], i: usize) -> (r: bool)
    requires
        0 < i < cs@.len(),
    ensures
        r == is_cut(cs@, i as int),
{
    space(cs[i - 1]) && (cs[i] as u32) < 128 && !space(cs[i])
}

/// Append the words of the ASCII stretch `from..to`, which starts at byte
/// `base`.
fn push_ascii(cs: &[char], from: usize, to: usize, base: usize, out: &mut Vec<(usize, String)>)
    requires
        fits(cs@),
        from <= to <= cs@.len(),
        base == bytes_before(cs@, from as int),
        forall|i: int| from <= i < to ==> is_low(#[trigger] cs@[i]),
        old(out)@.len() <= from,
        words_fit(old(out)@, cs@),
        words_apart(old(out)@, base as int),
    ensures
        words_view(final(out)@) == words_view(old(out)@) + ascii_part(cs@, from as int, to as int),
        final(out)@.len() <= to,
        words_fit(final(out)@, cs@),
        words_apart(final(out)@, bytes_before(cs@, to as int)),
{
    let ghost piece = cs@.subrange(from as int, to as int);
    let mut bytes: Vec<u8> = Vec::with_capacity(to - from);
    let mut i: usize = from;
    while i < to
        invariant
            from <= i <= to <= cs@.len(),
            forall|k: int| from <= k < to ==> is_low(#[trigger] cs@[k]),
            bytes@ == low_bytes(cs@.subrange(from as int, i as int)),
        decreases to - i,
    {
        bytes.push(cs[i] as u8);
        proof {
            assert(low_bytes(cs@.subrange(from as int, i + 1)) =~= low_bytes(cs@.subrange(from as int, i as int)).push(cs@[i as int] as u8));
        }
        i = i + 1;
    }
    let runs: Vec<(usize, usize)> = ascii_words(bytes.as_slice());
    let ghost spec_runs = word_runs(low_bytes(piece), 0);
    let ghost old_words = words_view(out@);
    let ghost f = |e: (int, int)| (bytes_before(cs@, from as int) + e.0, piece.subrange(e.0, e.1));
    let mut k: usize = 0;
    proof {
        lemma_bytes_mono(cs@, from as int, to as int);
        lemma_bytes_mono(cs@, 0, from as int);
        assert(old_words + spec_runs.map_values(f).take(0) =~= old_words);
        assert(forall|j: int| 0 <= j < runs@.len() ==> #[trigger] spec_runs[j] == (runs@[j].0 as int, runs@[j].1 as int));
    }
    while k < runs.len()
        invariant
            fits(cs@),
            from <= to <= cs@.len(),
            base == bytes_before(cs@, from as int),
            base <= 4 * from,
            forall|i: int| from <= i < to ==> is_low(#[trigger] cs@[i]),
            piece == cs@.subrange(from as int, to as int),
            k <= runs@.len(),
            runs@.len() == spec_runs.len(),
            runs@.len() <= to - from,
            forall|j: int| 0 <= j < runs@.len() ==> #[trigger] spec_runs[j] == (runs@[j].0 as int, runs@[j].1 as int),
            forall|j: int| 0 <= j < runs@.len() ==> (#[trigger] runs@[j]).0 < runs@[j].1 <= to - from,
            forall|i: int, j: int| 0 <= i < j < runs@.len() ==> (#[trigger] runs@[i]).1 <= (#[trigger] runs@[j]).0,
            words_apart(out@, base + (if k == 0 { 0 } else { runs@[k - 1].1 as int })),
            f == (|e: (int, int)| (bytes_before(cs@, from as int) + e.0, piece.subrange(e.0, e.1))),
            out@.len() == old(out)@.len() + k,
            words_view(out@) == old_words + spec_runs.map_values(f).take(k as int),
            words_fit(out@, cs@),
        decreases runs@.len() - k,
    {
        let (s, e): (usize, usize) = runs[k];
        assert(runs@[k as int].0 < runs@[k as int].1 <= to - from);
        let w: String = string_of(cs, from + s, from + e);
        let ghost was = out@;
        let at: usize = base + s;
        out.push((at, w));
        proof {
            let m = spec_runs.map_values(f);
            assert(w@ =~= piece.subrange(s as int, e as int));
            assert(m[k as int] == f(spec_runs[k as int]));
            assert(m.take(k + 1) =~= m.take(k as int).push((at as int, w@)));
            assert(words_view(out@) =~= words_view(was).push((at as int, w@)));
            assert(words_view(out@) =~= old_words + m.take(k + 1));
            lemma_low_bytes_len(cs@, from as int, to as int, s as int, e as int);
            lemma_bytes_mono(cs@, to as int, cs@.len() as int);
            lemma_bytes_mono(cs@, from + e, to as int);
            assert(at + byte_len(w@) <= byte_len(cs@));
            assert(byte_len(w@) == e - s);
            if k > 0 {
                assert(runs@[k - 1].1 <= runs@[k as int].0);
            }
            assert(out@.drop_last() =~= was);
            lemma_apart_push(was, out@, base + (if k == 0 { 0 } else { runs@[k - 1].1 as int }), base + e);
        }
        k = k + 1;
    }
    proof {
        lemma_low_run(cs@, from as int, to as int, to - from);
        assert(spec_runs.map_values(f).take(k as int) =~= spec_runs.map_values(f));
    }
}

/// In an ASCII stretch, bytes and characters count the same.
proof fn lemma_low_bytes_len(cs: Seq<char>, from: int, to: int, s: int, e: int)
    requires
        0 <= from <= to <= cs.len(),
        0 <= s <= e <= to - from,
        forall|i: int| from <= i < to ==> is_low(#[trigger] cs[i]),
    ensures
        bytes_before(cs, from) + s == bytes_before(cs, from + s),
        byte_len(cs.subrange(from + s, from + e)) == e - s,
        bytes_before(cs, from) + e == bytes_before(cs, from + e),
    decreases e,
{
    lemma_low_run(cs, from, to, s);
    lemma_low_run(cs, from, to, e);
    lemma_bytes_sub(cs, from + s, from + e, e - s);
}

proof fn lemma_low_run(cs: Seq<char>, from: int, to: int, n: int)
    requires
        0 <= from <= to <= cs.len(),
        0 <= n <= to - from,
        forall|i: int| from <= i < to ==> is_low(#[trigger] cs[i]),
    ensures
        bytes_before(cs, from) + n == bytes_before(cs, from + n),
    decreases n,
{
    if n > 0 {
        lemma_low_run(cs, from, to, n - 1);
        assert(is_low(cs[from + n - 1]));
    }
}

/// No word reaches past the end of the text.
pub open spec fn words_fit(ws: Seq<(usize, String)>, cs: Seq<char>) -> bool {
    forall|i: int| 0 <= i < ws.len() ==> (#[trigger] ws[i]).0 + byte_len(ws[i].1@) <= byte_len(cs) && ws[i].1@.len() <= cs.len()
}

/// The words are not empty, come one after the other, and end by byte `end`.
pub open spec fn words_apart(ws: Seq<(usize, String)>, end: int) -> bool {
    &&& forall|i: int| 0 <= i < ws.len() ==> (#[trigger] ws[i]).1@.len() > 0 && ws[i].0 + byte_len(ws[i].1@) <= end
    &&& forall|i: int, j: int| 0 <= i < j < ws.len() ==> (#[trigger] ws[i]).0 + byte_len(ws[i].1@) <= (#[trigger] ws[j]).0
}

proof fn lemma_apart_push(was: Seq<(usize, String)>, ws: Seq<(usize, String)>, from: int, end: int)
    requires
        words_apart(was, from),
        ws.len() == was.len() + 1,
        ws.drop_last() == was,
        ws.last().1@.len() > 0,
        from <= ws.last().0,
        ws.last().0 + byte_len(ws.last().1@) <= end,
        from <= end,
    ensures
        words_apart(ws, end),
{
    assert forall|i: int| 0 <= i < was.len() implies #[trigger] ws[i] == was[i] by {
        assert(ws.drop_last()[i] == was[i]);
    }
}

/// Append the words of the stretch `lo..hi`, which starts at byte `base`, by
/// the Unicode rules.
fn push_unicode(cs: &[char], lo: usize, hi: usize, base: usize, out: &mut Vec<(usize, String)>)
    requires
        fits(cs@),
        lo <= hi <= cs@.len(),
        base == bytes_before(cs@, lo as int),
        old(out)@.len() <= lo,
        words_fit(old(out)@, cs@),
        words_apart(old(out)@, base as int),
    ensures
        words_view(final(out)@) == words_view(old(out)@) + unicode_part(cs@, lo as int, hi as int),
        final(out)@.len() <= hi,
        words_fit(final(out)@, cs@),
        words_apart(final(out)@, bytes_before(cs@, hi as int)),
{
    let piece: String = string_of(cs, lo, hi);
    let found: Vec<(usize, String)> = unicode_words(piece.as_str());
    let ghost old_words = words_view(out@);
    let ghost all = unicode_words_of(piece@);
    let ghost f = |e: (int, Seq<char>)| (bytes_before(cs@, lo as int) + e.0, e.1);
    let mut k: usize = 0;
    proof {
        lemma_bytes_sub(cs@, lo as int, hi as int, hi - lo);
        lemma_bytes_mono(cs@, hi as int, cs@.len() as int);
        lemma_bytes_mono(cs@, 0, cs@.len() as int);
        assert(old_words + all.map_values(f).take(0) =~= old_words);
        assert(forall|j: int| 0 <= j < found@.len() ==> #[trigger] all[j] == (found@[j].0 as int, found@[j].1@)) by {
            assert(words_view(found@) == all);
            assert forall|j: int| 0 <= j < found@.len() implies #[trigger] all[j] == (found@[j].0 as int, found@[j].1@) by {
                assert(words_view(found@)[j] == (found@[j].0 as int, found@[j].1@));
            }
        }
    }
    while k < found.len()
        invariant
            fits(cs@),
            lo <= hi <= cs@.len(),
            byte_len(cs@) <= u32::MAX,
            base == bytes_before(cs@, lo as int),
            base + byte_len(piece@) == bytes_before(cs@, hi as int),
            bytes_before(cs@, hi as int) <= byte_len(cs@),
            piece@ == cs@.subrange(lo as int, hi as int),
            k <= found@.len(),
            found@.len() <= hi - lo,
            found@.len() == all.len(),
            forall|j: int| 0 <= j < found@.len() ==> #[trigger] all[j] == (found@[j].0 as int, found@[j].1@),
            forall|i: int| 0 <= i < found@.len() ==> (#[trigger] found@[i]).0 + byte_len(found@[i].1@) <= byte_len(piece@) && found@[i].1@.len() <= piece@.len(),
            forall|i: int| 0 <= i < found@.len() ==> (#[trigger] found@[i]).1@.len() > 0,
            forall|i: int, j: int| 0 <= i < j < found@.len() ==> (#[trigger] found@[i]).0 + byte_len(found@[i].1@) <= (#[trigger] found@[j]).0,
            words_apart(out@, base + (if k == 0 { 0 } else { found@[k - 1].0 + byte_len(found@[k - 1].1@) })),
            f == (|e: (int, Seq<char>)| (bytes_before(cs@, lo as int) + e.0, e.1)),
            out@.len() == old(out)@.len() + k,
            words_view(out@) == old_words + all.map_values(f).take(k as int),
            words_fit(out@, cs@),
        decreases found@.len() - k,
    {
        proof {
            let e = found@[k as int];
            assert(e.0 + byte_len(e.1@) <= byte_len(piece@));
            lemma_bytes_mono(e.1@, 0, e.1@.len() as int);
        }
        let w: String = found[k].1.clone();
        let at: usize = base + found[k].0;
        let ghost was = out@;
        out.push((at, w));
        proof {
            let m = all.map_values(f);
            assert(m[k as int] == f(all[k as int]));
            assert(m.take(k + 1) =~= m.take(k as int).push((at as int, w@)));
            assert(words_view(out@) =~= words_view(was).push((at as int, w@)));
            assert(words_view(out@) =~= old_words + m.take(k + 1));
            if k > 0 {
                assert(found@[k - 1].0 + byte_len(found@[k - 1].1@) <= found@[k as int].0);
            }
            assert(out@.drop_last() =~= was);
            lemma_apart_push(was, out@, base + (if k == 0 { 0 } else { found@[k - 1].0 + byte_len(found@[k - 1].1@) }), at + byte_len(w@));
        }
        k = k + 1;
    }
    proof {
        if k > 0 {
            assert(found@[k - 1].0 + byte_len(found@[k - 1].1@) <= byte_len(piece@));
        }
        lemma_bytes_mono(cs@, lo as int, hi as int);
        assert(all.map_values(f).take(k as int) =~= all.map_values(f));
    }
}

/// Each word of `text` with its byte offset: UAX #29 word boundaries, words
/// with a letter or digit.
///
/// The text is cut where ASCII whitespace meets an ASCII non-space character.
/// UAX #29 always breaks there, and no rule decides anything on one side by
/// looking past such a cut. So the pieces around each non-ASCII character go
/// through `unicode-segmentation`, and everything else through
/// [`ascii_words`], the UAX #29 rules for ASCII.
pub fn for_each_word(text: &str) -> (r: Vec<(usize, String)>)
    requires
        fits(text@),
    ensures
        words_view(r@) == words_from(text@, 0),
        r@.len() <= text@.len(),
        words_fit(r@, text@),
        words_apart(r@, byte_len(text@)),
{
    let cs: Vec<char> = chars_of(text);
    words_of_chars(cs.as_slice())
}

/// [`for_each_word`] on the characters of a text.
pub fn words_of_chars(cs: &[char]) -> (r: Vec<(usize, String)>)
    requires
        fits(cs@),
    ensures
        words_view(r@) == words_from(cs@, 0),
        r@.len() <= cs@.len(),
        words_fit(r@, cs@),
        words_apart(r@, byte_len(cs@)),
{
    let n: usize = cs.len();
    let mut out: Vec<(usize, String)> = Vec::new();
    let mut pos: usize = 0;
    // Byte position of `pos`.
    let mut base: usize = 0;
    proof {
        assert(words_view(out@) + words_from(cs@, 0) =~= words_from(cs@, 0));
    }
    while pos < n
        invariant
            n == cs@.len(),
            fits(cs@),
            pos <= n,
            base == bytes_before(cs@, pos as int),
            out@.len() <= pos,
            words_fit(out@, cs@),
            words_apart(out@, base as int),
            words_view(out@) + words_from(cs@, pos as int) == words_from(cs@, 0),
        decreases n - pos,
    {
        let mut q: usize = pos;
        while q < n && (cs[q] as u32) < 128
            invariant
                n == cs@.len(),
                pos <= q <= n,
                first_high(cs@, pos as int) == first_high(cs@, q as int),
                forall|i: int| pos <= i < q ==> is_low(#[trigger] cs@[i]),
            decreases n - q,
        {
            q = q + 1;
        }
        let ghost was = words_view(out@);
        if q == n {
            push_ascii(cs, pos, n, base, &mut out);
            proof {
                assert(words_view(out@) =~= words_from(cs@, 0));
            }
            return out;
        }
        // The piece around q: from the last cut at or before it, to the
        // first cut after it.
        let mut lo: usize = q;
        while lo > pos && !cut(cs, lo)
            invariant
                n == cs@.len(),
                pos <= lo <= q < n,
                cut_before(cs@, pos as int, q as int) == cut_before(cs@, pos as int, lo as int),
            decreases lo,
        {
            lo = lo - 1;
        }
        let mut hi: usize = q + 1;
        while hi < n && !cut(cs, hi)
            invariant
                n == cs@.len(),
                q < hi <= n,
                cut_after(cs@, q + 1) == cut_after(cs@, hi as int),
            decreases n - hi,
        {
            hi = hi + 1;
        }
        push_ascii(cs, pos, lo, base, &mut out);
        proof {
            lemma_low_run(cs@, pos as int, q as int, lo - pos);
            lemma_bytes_mono(cs@, 0, pos as int);
        }
        let lo_base: usize = base + (lo - pos);
        push_unicode(cs, lo, hi, lo_base, &mut out);
        proof {
            assert(cut_before(cs@, pos as int, q as int) == lo);
            assert(cut_after(cs@, q + 1) == hi);
            assert(words_view(out@) + words_from(cs@, hi as int) =~= was + (ascii_part(cs@, pos as int, lo as int) + unicode_part(cs@, lo as int, hi as int) + words_from(cs@, hi as int)));
        }
        let mut i: usize = lo;
        let mut at: usize = lo_base;
        while i < hi
            invariant
                n == cs@.len(),
                fits(cs@),
                lo <= i <= hi <= n,
                at == bytes_before(cs@, i as int),
            decreases hi - i,
        {
            proof {
                lemma_bytes_mono(cs@, 0, i + 1);
            }
            at = at + crate::text::width_of(cs[i]);
            i = i + 1;
        }
        base = at;
        pos = hi;
    }
    proof {
        assert(words_view(out@) =~= words_from(cs@, 0));
    }
    out
}

// ---------------------------------------------------------------------------
// Folding
// ---------------------------------------------------------------------------

/// The lower case of an ASCII character.
pub open spec fn ascii_lower(c: char) -> char {
    if 'A' <= c && c <= 'Z' {
        ((c as u8) + 32) as u8 as char
    } else {
        c
    }
}

/// Every character is ASCII.
pub open spec fn all_low(s: Seq<char>) -> bool {
    forall|i: int| 0 <= i < s.len() ==> is_low(#[trigger] s[i])
}

/// A control character.
pub open spec fn is_control(c: char) -> bool {
    (c as u32) < 0x20 || 0x7F <= c as u32 <= 0x9F
}

/// Every character is ASCII, and none a control character.
pub open spec fn all_plain(s: Seq<char>) -> bool {
    forall|i: int| 0 <= i < s.len() ==> is_low(#[trigger] s[i]) && !is_control(s[i])
}

/// The first `n` characters without the control characters, and with no ASCII
/// capital left.
pub open spec fn bare(s: Seq<char>, n: int) -> Seq<char>
    decreases n,
{
    if n <= 0 {
        Seq::empty()
    } else if is_control(s[n - 1]) {
        bare(s, n - 1)
    } else {
        bare(s, n - 1).push(ascii_lower(s[n - 1]))
    }
}

/// The lower case of the characters from `i` on that are neither marks nor
/// control characters.
pub open spec fn fold_tail(s: Seq<char>, i: int) -> Seq<char>
    decreases s.len() - i,
{
    if i < 0 || i >= s.len() {
        Seq::empty()
    } else if combining(s[i]) {
        fold_tail(s, i + 1)
    } else {
        bare(lower_of(s[i]), lower_of(s[i]).len() as int) + fold_tail(s, i + 1)
    }
}

/// A word with its case and accents folded, and without control characters.
pub open spec fn fold(w: Seq<char>) -> Seq<char> {
    if all_plain(w) {
        w.map_values(|c: char| ascii_lower(c))
    } else {
        fold_tail(nfkd_of(w), 0)
    }
}

proof fn lemma_bare(s: Seq<char>, n: int)
    requires
        0 <= n <= s.len(),
    ensures
        forall|k: int| 0 <= k < bare(s, n).len() ==> !is_control(#[trigger] bare(s, n)[k]) && !is_capital(bare(s, n)[k]),
    decreases n,
{
    if n > 0 {
        lemma_bare(s, n - 1);
        let (p, q) = (bare(s, n - 1), bare(s, n));
        assert forall|k: int| 0 <= k < q.len() implies !is_control(#[trigger] q[k]) && !is_capital(q[k]) by {
            if k < p.len() {
                assert(q[k] == p[k]);
            }
        }
    }
}

proof fn lemma_fold_tail_bare(s: Seq<char>, i: int)
    requires
        0 <= i <= s.len(),
    ensures
        forall|k: int| 0 <= k < fold_tail(s, i).len() ==> !is_control(#[trigger] fold_tail(s, i)[k]) && !is_capital(fold_tail(s, i)[k]),
    decreases s.len() - i,
{
    if i < s.len() {
        lemma_fold_tail_bare(s, i + 1);
        let l = lower_of(s[i]);
        lemma_bare(l, l.len() as int);
        let (p, q, b) = (fold_tail(s, i + 1), fold_tail(s, i), bare(l, l.len() as int));
        assert forall|k: int| 0 <= k < q.len() implies !is_control(#[trigger] q[k]) && !is_capital(q[k]) by {
            if combining(s[i]) {
                assert(q[k] == p[k]);
            } else if k < b.len() {
                assert(q[k] == b[k]);
            } else {
                assert(q[k] == p[k - b.len()]);
            }
        }
    }
}

/// One of the letters from `A` to `Z`.
pub open spec fn is_capital(c: char) -> bool {
    65 <= c as u32 <= 90
}

/// Folding leaves no capital letter of ASCII.
pub proof fn folding_drops_capitals(w: Seq<char>)
    ensures
        forall|k: int| 0 <= k < fold(w).len() ==> !(65 <= (#[trigger] fold(w)[k]) as u32 <= 90),
{
    if all_plain(w) {
        assert forall|k: int| 0 <= k < fold(w).len() implies !(65 <= (#[trigger] fold(w)[k]) as u32 <= 90) by {
            assert(is_low(w[k]));
        }
    } else {
        lemma_fold_tail_bare(nfkd_of(w), 0);
        assert forall|k: int| 0 <= k < fold(w).len() implies !(65 <= (#[trigger] fold(w)[k]) as u32 <= 90) by {
            assert(!is_capital(fold_tail(nfkd_of(w), 0)[k]));
        }
    }
}

/// Folding leaves a plain word of ASCII as it is but for its capitals, which
/// become the small letters.
pub proof fn folding_lowers_ascii(w: Seq<char>, i: int)
    requires
        forall|k: int| 0 <= k < w.len() ==> 0x20 <= (#[trigger] w[k]) as u32 <= 0x7E,
        0 <= i < w.len(),
    ensures
        fold(w).len() == w.len(),
        65 <= w[i] as u32 <= 90 ==> fold(w)[i] as u32 == w[i] as u32 + 32,
        !(65 <= w[i] as u32 <= 90) ==> fold(w)[i] == w[i],
{
    assert(all_plain(w)) by {
        assert forall|k: int| 0 <= k < w.len() implies is_low(#[trigger] w[k]) && !is_control(w[k]) by {
        }
    }
    assert(is_low(w[i]));
}

/// Characters are folded one by one.
proof fn lemma_fold_joined(a: Seq<char>, b: Seq<char>, i: int)
    requires
        0 <= i <= a.len(),
    ensures
        fold_tail(a + b, i) == fold_tail(a, i) + fold_tail(b, 0),
    decreases a.len() - i,
{
    if i < a.len() {
        assert((a + b)[i] == a[i]);
        lemma_fold_joined(a, b, i + 1);
        assert(fold_tail(a + b, i) =~= fold_tail(a, i) + fold_tail(b, 0));
    } else {
        lemma_fold_shifted(a, b, 0);
        assert(fold_tail(a, i) =~= Seq::empty());
        assert(fold_tail(a + b, i) =~= fold_tail(a, i) + fold_tail(b, 0));
    }
}

proof fn lemma_fold_shifted(a: Seq<char>, b: Seq<char>, i: int)
    requires
        0 <= i,
    ensures
        fold_tail(a + b, a.len() + i) == fold_tail(b, i),
    decreases b.len() - i,
{
    if i < b.len() {
        assert((a + b)[a.len() + i] == b[i]);
        lemma_fold_shifted(a, b, i + 1);
    }
}

/// Accents do not count: words beyond ASCII whose decompositions differ only in
/// a combining mark fold to the same term, and a character that is none adds
/// its lower case.
pub proof fn folding_ignores_accents(v: Seq<char>, w: Seq<char>, a: Seq<char>, c: char, b: Seq<char>)
    requires
        !all_plain(v),
        !all_plain(w),
        nfkd_of(v) == a + seq![c] + b,
        nfkd_of(w) == a + b,
    ensures
        combining(c) ==> fold(v) == fold(w),
        !combining(c) ==> fold(v) == fold_tail(a, 0) + bare(lower_of(c), lower_of(c).len() as int) + fold_tail(b, 0),
        fold(w) == fold_tail(a, 0) + fold_tail(b, 0),
{
    let one = seq![c];
    lemma_fold_joined(a + one, b, 0);
    lemma_fold_joined(a, one, 0);
    lemma_fold_joined(a, b, 0);
    assert(fold_tail(one, 1) =~= Seq::empty());
    let low = bare(lower_of(c), lower_of(c).len() as int);
    if combining(c) {
        assert(fold_tail(one, 0) =~= Seq::empty());
        assert(fold(v) =~= fold(w));
    } else {
        assert(fold_tail(one, 0) =~= low);
    }
}

/// Folding leaves no control character: none below U+0020, and none from U+007F
/// to U+009F.
pub proof fn folding_drops_control_range(w: Seq<char>)
    ensures
        forall|k: int| 0 <= k < fold(w).len() ==> 0x20 <= (#[trigger] fold(w)[k]) as u32 && !(0x7F <= fold(w)[k] as u32 <= 0x9F),
{
    folding_drops_controls(w);
    assert forall|k: int| 0 <= k < fold(w).len() implies 0x20 <= (#[trigger] fold(w)[k]) as u32 && !(0x7F <= fold(w)[k] as u32 <= 0x9F) by {
        assert(!is_control(fold(w)[k]));
    }
}

/// Folding leaves no control character.
pub proof fn folding_drops_controls(w: Seq<char>)
    ensures
        forall|k: int| 0 <= k < fold(w).len() ==> !is_control(#[trigger] fold(w)[k]),
{
    if all_plain(w) {
        assert forall|k: int| 0 <= k < fold(w).len() implies !is_control(#[trigger] fold(w)[k]) by {
            assert(is_low(w[k]) && !is_control(w[k]));
        }
    } else {
        lemma_fold_tail_bare(nfkd_of(w), 0);
    }
}

/// Append the characters of `cs` that are no control characters. (What is lower
/// case already stays as it is.)
fn push_bare(out: &mut Vec<char>, cs: &Vec<char>)
    ensures
        final(out)@ == old(out)@ + bare(cs@, cs@.len() as int),
{
    let ghost start = out@;
    let mut i: usize = 0;
    proof {
        assert(start + bare(cs@, 0) =~= start);
    }
    while i < cs.len()
        invariant
            i <= cs@.len(),
            out@ == start + bare(cs@, i as int),
        decreases cs@.len() - i,
    {
        let c: char = cs[i];
        let n: u32 = c as u32;
        if !(n < 0x20 || (0x7F <= n && n <= 0x9F)) {
            out.push(if 'A' <= c && c <= 'Z' {
                ((c as u8) + 32) as char
            } else {
                c
            });
        }
        i = i + 1;
        proof {
            assert(out@ =~= start + bare(cs@, i as int));
        }
    }
}

/// Case- and accent-fold one word, and drop its control characters.
fn fold_word(word: &str) -> (r: Vec<char>)
    ensures
        r@ == fold(word@),
{
    let cs: Vec<char> = chars_of(word);
    let mut out: Vec<char> = Vec::with_capacity(cs.len());
    let mut i: usize = 0;
    let ghost f = |c: char| ascii_lower(c);
    while i < cs.len() && (cs[i] as u32) < 0x7F && (cs[i] as u32) >= 0x20
        invariant
            i <= cs@.len(),
            f == (|c: char| ascii_lower(c)),
            forall|k: int| 0 <= k < i ==> is_low(#[trigger] cs@[k]) && !is_control(cs@[k]),
            out@ == cs@.take(i as int).map_values(f),
        decreases cs@.len() - i,
    {
        let c: char = cs[i];
        let l: char = if 'A' <= c && c <= 'Z' {
            ((c as u8) + 32) as char
        } else {
            c
        };
        out.push(l);
        proof {
            assert(cs@.take(i + 1).map_values(f) =~= cs@.take(i as int).map_values(f).push(ascii_lower(c)));
        }
        i = i + 1;
    }
    if i == cs.len() {
        proof {
            assert(cs@.take(i as int) =~= cs@);
        }
        return out;
    }
    proof {
        assert(!is_low(cs@[i as int]) || is_control(cs@[i as int]));
    }
    let parts: Vec<char> = nfkd(word);
    let mut folded: Vec<char> = Vec::new();
    let mut k: usize = 0;
    proof {
        assert(folded@ + fold_tail(parts@, 0) =~= fold_tail(parts@, 0));
    }
    while k < parts.len()
        invariant
            k <= parts@.len(),
            folded@ + fold_tail(parts@, k as int) == fold_tail(parts@, 0),
        decreases parts@.len() - k,
    {
        let ghost was = folded@;
        if !is_combining_mark(parts[k]) {
            let l: Vec<char> = to_lowercase(parts[k]);
            push_bare(&mut folded, &l);
            proof {
                let lv = bare(l@, l@.len() as int);
                assert(folded@ + fold_tail(parts@, k + 1) =~= was + (lv + fold_tail(parts@, k + 1)));
            }
        }
        k = k + 1;
    }
    proof {
        assert(folded@ =~= fold_tail(parts@, 0));
    }
    folded
}

// ---------------------------------------------------------------------------
// Analyzer
// ---------------------------------------------------------------------------

/// A term of a text: the folded word, its word position, and the byte range
/// of the word it came from.
#[derive(Clone, Debug)]
pub struct Token {
    pub term: String,
    pub pos: u32,
    pub start: usize,
    pub end: usize,
}

/// What a [`Token`] says.
pub ghost struct TokenView {
    pub term: Seq<char>,
    pub pos: int,
    pub start: int,
    pub end: int,
}

impl View for Token {
    type V = TokenView;

    open spec fn view(&self) -> TokenView {
        TokenView { term: self.term@, pos: self.pos as int, start: self.start as int, end: self.end as int }
    }
}

/// The plain values of a list of tokens.
pub open spec fn token_views(s: Seq<Token>) -> Seq<TokenView> {
    s.map_values(|t: Token| t@)
}

/// Whether a folded word is kept as a term.
pub open spec fn is_kept(term: Seq<char>) -> bool {
    term.len() > 0 && byte_len(term) <= 64
}

/// The tokens of the first `n` words of `ws`.
pub open spec fn tokens_of_words(ws: Seq<(int, Seq<char>)>, n: int) -> Seq<TokenView>
    decreases n,
{
    if n <= 0 {
        Seq::empty()
    } else {
        let rest = tokens_of_words(ws, n - 1);
        let w = ws[n - 1];
        if is_kept(fold(w.1)) {
            rest.push(TokenView { term: fold(w.1), pos: n - 1, start: w.0, end: w.0 + byte_len(w.1) })
        } else {
            rest
        }
    }
}

/// The tokens of a text.
pub open spec fn tokens_of(text: Seq<char>) -> Seq<TokenView> {
    tokens_of_words(words_from(text, 0), words_from(text, 0).len() as int)
}

/// Words one after the other: their byte ranges ascend and do not overlap.
pub open spec fn in_order(ts: Seq<TokenView>) -> bool {
    &&& forall|i: int| 0 <= i < ts.len() ==> (#[trigger] ts[i]).start <= ts[i].end
    &&& forall|i: int, j: int| 0 <= i < j < ts.len() ==> (#[trigger] ts[i]).end <= (#[trigger] ts[j]).start
}

/// Tokens come in the order of their words.
proof fn lemma_tokens_in_order(ws: Seq<(usize, String)>, n: int)
    requires
        0 <= n <= ws.len(),
        forall|i: int, j: int| 0 <= i < j < ws.len() ==> (#[trigger] ws[i]).0 + byte_len(ws[i].1@) <= (#[trigger] ws[j]).0,
    ensures
        in_order(tokens_of_words(words_view(ws), n)),
        n > 0 ==> forall|k: int|
            0 <= k < tokens_of_words(words_view(ws), n).len() ==> (#[trigger] tokens_of_words(words_view(ws), n)[k]).end <= ws[n - 1].0 + byte_len(
                ws[n - 1].1@,
            ),
        n == 0 ==> tokens_of_words(words_view(ws), n).len() == 0,
    decreases n,
{
    let wv = words_view(ws);
    if n > 0 {
        lemma_tokens_in_order(ws, n - 1);
        let w = ws[n - 1];
        assert(wv[n - 1] == (w.0 as int, w.1@));
        lemma_bytes_mono(w.1@, 0, w.1@.len() as int);
        let (p, q) = (tokens_of_words(wv, n - 1), tokens_of_words(wv, n));
        assert forall|k: int| 0 <= k < p.len() implies (#[trigger] p[k]).end <= w.0 by {
            assert(ws[n - 2].0 + byte_len(ws[n - 2].1@) <= ws[n - 1].0);
        }
        assert forall|k: int| 0 <= k < p.len() implies #[trigger] q[k] == p[k] by {}
        assert forall|i: int| 0 <= i < q.len() implies (#[trigger] q[i]).start <= q[i].end by {
            if i < p.len() {
                assert(p[i].start <= p[i].end);
            }
        }
        assert forall|i: int, j: int| 0 <= i < j < q.len() implies (#[trigger] q[i]).end <= (#[trigger] q[j]).start by {
            if j < p.len() {
                assert(p[i].end <= p[j].start);
            }
        }
        assert forall|k: int| 0 <= k < q.len() implies (#[trigger] q[k]).end <= w.0 + byte_len(w.1@) by {
            if k < p.len() {
                assert(p[k].end <= w.0);
            }
        }
    }
}

proof fn lemma_tokens_bare(ws: Seq<(int, Seq<char>)>, n: int)
    requires
        0 <= n,
    ensures
        forall|k: int, i: int|
            0 <= k < tokens_of_words(ws, n).len() && 0 <= i < tokens_of_words(ws, n)[k].term.len() ==> !is_control(
                #[trigger] tokens_of_words(ws, n)[k].term[i],
            ),
    decreases n,
{
    if n > 0 {
        lemma_tokens_bare(ws, n - 1);
        folding_drops_controls(ws[n - 1].1);
        let (p, q) = (tokens_of_words(ws, n - 1), tokens_of_words(ws, n));
        assert forall|k: int, i: int| 0 <= k < q.len() && 0 <= i < q[k].term.len() implies !is_control(#[trigger] q[k].term[i]) by {
            if k < p.len() {
                assert(q[k] == p[k]);
                assert(!is_control(p[k].term[i]));
            } else {
                assert(q[k].term == fold(ws[n - 1].1));
            }
        }
    }
}

/// No term of a text holds a control character.
pub proof fn terms_hold_no_controls(text: Seq<char>)
    ensures
        forall|k: int, i: int|
            0 <= k < tokens_of(text).len() && 0 <= i < tokens_of(text)[k].term.len() ==> !is_control(#[trigger] tokens_of(text)[k].term[i]),
{
    lemma_tokens_bare(words_from(text, 0), words_from(text, 0).len() as int);
}

proof fn lemma_tokens_fold(ws: Seq<(int, Seq<char>)>, n: int)
    ensures
        forall|k: int|
            0 <= k < tokens_of_words(ws, n).len() ==> exists|j: int| 0 <= j < n && (#[trigger] tokens_of_words(ws, n)[k]).term == fold((#[trigger] ws[j]).1),
    decreases n,
{
    if n > 0 {
        lemma_tokens_fold(ws, n - 1);
        let (p, q) = (tokens_of_words(ws, n - 1), tokens_of_words(ws, n));
        assert forall|k: int| 0 <= k < q.len() implies exists|j: int| 0 <= j < n && (#[trigger] q[k]).term == fold((#[trigger] ws[j]).1) by {
            if k < p.len() {
                assert(q[k] == p[k]);
                let j = choose|j: int| 0 <= j < n - 1 && p[k].term == fold((#[trigger] ws[j]).1);
                assert(q[k].term == fold(ws[j].1));
            } else {
                assert(q[k].term == fold(ws[n - 1].1));
            }
        }
    }
}

/// No term of any text holds a letter from `A` to `Z`, a character below U+0020
/// or one from U+007F to U+009F.
pub proof fn terms_are_folded(text: Seq<char>, k: int, i: int)
    requires
        0 <= k < terms_of(text).len(),
        0 <= i < terms_of(text)[k].len(),
    ensures
        !(65 <= terms_of(text)[k][i] as u32 <= 90),
        0x20 <= terms_of(text)[k][i] as u32,
        !(0x7F <= terms_of(text)[k][i] as u32 <= 0x9F),
{
    let ws = words_from(text, 0);
    let n = ws.len() as int;
    lemma_tokens_fold(ws, n);
    assert(terms_of(text)[k] == tokens_of(text)[k].term);
    let j = choose|j: int| 0 <= j < n && tokens_of_words(ws, n)[k].term == fold((#[trigger] ws[j]).1);
    folding_drops_capitals(ws[j].1);
    folding_drops_control_range(ws[j].1);
}

/// The same character, or the same letter of ASCII in the other case.
pub open spec fn same_letter(a: char, b: char) -> bool {
    ||| a == b
    ||| 65 <= a as u32 <= 90 && b as u32 == a as u32 + 32
    ||| 65 <= b as u32 <= 90 && a as u32 == b as u32 + 32
}

/// Texts that differ only in the case of letters.
pub open spec fn same_but_case(a: Seq<char>, b: Seq<char>) -> bool {
    a.len() == b.len() && forall|i: int| 0 <= i < a.len() ==> same_letter(#[trigger] a[i], b[i])
}

/// A text of ASCII without control characters.
pub open spec fn is_plain_text(s: Seq<char>) -> bool {
    forall|i: int| 0 <= i < s.len() ==> 0x20 <= (#[trigger] s[i]) as u32 <= 0x7E
}

/// Words that differ only in the case of letters fold to the same term.
pub proof fn folding_ignores_case(a: Seq<char>, b: Seq<char>)
    requires
        is_plain_text(a),
        is_plain_text(b),
        same_but_case(a, b),
    ensures
        fold(a) == fold(b),
{
    assert(fold(a) =~= fold(b)) by {
        if a.len() > 0 {
            folding_lowers_ascii(a, 0);
            folding_lowers_ascii(b, 0);
        } else {
            assert(all_plain(a) && all_plain(b));
        }
        assert forall|i: int| 0 <= i < a.len() implies fold(a)[i] == fold(b)[i] by {
            folding_lowers_ascii(a, i);
            folding_lowers_ascii(b, i);
            assert(same_letter(a[i], b[i]));
            lemma_char_of(fold(a)[i], fold(b)[i]);
        }
    }
}

proof fn lemma_char_of(a: char, b: char)
    requires
        a as u32 == b as u32,
    ensures
        a == b,
{
}

proof fn lemma_runs_same(a: Seq<u8>, b: Seq<u8>, i: int)
    requires
        a.len() == b.len(),
        0 <= i,
        forall|x: int| in_word(a, x) == in_word(b, x),
        forall|x: int| 0 <= x < a.len() ==> (#[trigger] a[x] == 95 <==> b[x] == 95),
    ensures
        word_runs(a, i) == word_runs(b, i),
    decreases a.len() - i,
{
    if i < a.len() {
        lemma_run_end_same(a, b, i);
        let e = run_end(a, i);
        if in_word(a, i) {
            lemma_run_grows(a, i);
            lemma_runs_same(a, b, e);
            assert(only_connectors(a, i, e) == only_connectors(b, i, e)) by {
                if only_connectors(a, i, e) {
                    assert forall|x: int| i <= x < e implies #[trigger] b[x] == 95 by {
                        assert(a[x] == 95);
                    }
                }
                if only_connectors(b, i, e) {
                    assert forall|x: int| i <= x < e implies #[trigger] a[x] == 95 by {
                        assert(b[x] == 95);
                    }
                }
            }
        } else {
            lemma_runs_same(a, b, i + 1);
        }
    }
}

proof fn lemma_run_grows(b: Seq<u8>, i: int)
    ensures
        i <= run_end(b, i),
        in_word(b, i) ==> i < run_end(b, i) <= b.len(),
    decreases b.len() - i,
{
    if in_word(b, i) {
        lemma_run_grows(b, i + 1);
    }
}

proof fn lemma_run_end_same(a: Seq<u8>, b: Seq<u8>, i: int)
    requires
        a.len() == b.len(),
        forall|x: int| in_word(a, x) == in_word(b, x),
    ensures
        run_end(a, i) == run_end(b, i),
    decreases a.len() - i,
{
    if in_word(a, i) {
        lemma_run_end_same(a, b, i + 1);
    }
}

/// Case makes no difference to what a text is made of: texts of ASCII that
/// differ only in the case of letters have the same terms, in the same places.
pub proof fn analysis_ignores_case(a: Seq<char>, b: Seq<char>)
    requires
        is_plain_text(a),
        is_plain_text(b),
        same_but_case(a, b),
    ensures
        tokens_of(a) == tokens_of(b),
        terms_of(a) == terms_of(b),
{
    let n = a.len() as int;
    assert forall|i: int| 0 <= i < n implies is_low(#[trigger] a[i]) by {}
    assert forall|i: int| 0 <= i < n implies is_low(#[trigger] b[i]) by {}
    lemma_first_high_none(a, 0);
    lemma_first_high_none(b, 0);
    let (pa, pb) = (a.subrange(0, n), b.subrange(0, n));
    assert(pa =~= a && pb =~= b);
    let (la, lb) = (low_bytes(a), low_bytes(b));
    assert forall|x: int| 0 <= x < n implies is_letter(#[trigger] la[x]) == is_letter(lb[x]) && (!is_letter(la[x]) ==> la[x] == lb[x]) by {
        assert(same_letter(a[x], b[x]));
        assert(0x20 <= a[x] as u32 <= 0x7E && 0x20 <= b[x] as u32 <= 0x7E);
        assert(la[x] == a[x] as u8 && lb[x] == b[x] as u8);
        lemma_low_byte(a[x]);
        lemma_low_byte(b[x]);
    }
    assert forall|x: int| in_word(la, x) == in_word(lb, x) by {
        if 0 <= x < n {
            assert(is_letter(la[x]) == is_letter(lb[x]));
            if 0 < x {
                assert(is_letter(la[x - 1]) == is_letter(lb[x - 1]));
            }
            if x + 1 < n {
                assert(is_letter(la[x + 1]) == is_letter(lb[x + 1]));
            }
        }
    }
    assert forall|x: int| 0 <= x < n implies (#[trigger] la[x] == 95 <==> lb[x] == 95) by {
        assert(is_letter(la[x]) == is_letter(lb[x]));
    }
    lemma_runs_same(la, lb, 0);
    lemma_runs_inside(la, 0);
    let runs = word_runs(la, 0);
    let (wa, wb) = (words_from(a, 0), words_from(b, 0));
    assert(wa.len() == runs.len() && wb.len() == runs.len()) by {
        if n == 0 {
            assert(word_runs(la, 0).len() == 0);
        }
    }
    assert forall|k: int| 0 <= k < wa.len() implies (#[trigger] wa[k]).0 == wb[k].0 && same_but_case(wa[k].1, wb[k].1) && is_plain_text(wa[k].1) && is_plain_text(
        wb[k].1,
    ) by {
        let e = runs[k];
        assert(0 <= e.0 <= e.1 <= n);
        assert(wa[k] == (bytes_before(a, 0) + e.0, a.subrange(e.0, e.1)));
        assert(wb[k] == (bytes_before(b, 0) + e.0, b.subrange(e.0, e.1)));
        assert forall|x: int| 0 <= x < e.1 - e.0 implies same_letter(#[trigger] wa[k].1[x], wb[k].1[x]) && 0x20 <= wa[k].1[x] as u32 <= 0x7E && 0x20
            <= wb[k].1[x] as u32 <= 0x7E by {
            assert(same_letter(a[e.0 + x], b[e.0 + x]));
            assert(wa[k].1[x] == a[e.0 + x] && wb[k].1[x] == b[e.0 + x]);
        }
    }
    lemma_tokens_ignore_case(wa, wb, wa.len() as int);
    assert(terms_of(a) =~= terms_of(b));
}

proof fn lemma_low_byte(c: char)
    requires
        c as u32 <= 0x7E,
    ensures
        (c as u8) as u32 == c as u32,
{
    assert(0 <= c as u32 <= 255);
    assert((c as u32) as u8 == c as u8);
}

/// A word of up to 64 letters and digits of ASCII.
pub open spec fn is_plain_word(w: Seq<char>) -> bool {
    &&& 1 <= w.len() <= 64
    &&& forall|i: int|
        0 <= i < w.len() ==> {
            ||| 97 <= (#[trigger] w[i]) as u32 <= 122
            ||| 65 <= w[i] as u32 <= 90
            ||| 48 <= w[i] as u32 <= 57
        }
}

proof fn lemma_whole_run(b: Seq<u8>, i: int)
    requires
        0 <= i <= b.len(),
        forall|x: int| 0 <= x < b.len() ==> in_word(b, x),
    ensures
        run_end(b, i) == b.len(),
    decreases b.len() - i,
{
    if i < b.len() {
        lemma_whole_run(b, i + 1);
    }
}

/// A word of letters and digits is one term, the word in lower case.
pub proof fn plain_word_is_one_term(w: Seq<char>)
    requires
        is_plain_word(w),
    ensures
        terms_of(w) == seq![fold(w)],
        tokens_of(w)[0].pos == 0,
        tokens_of(w)[0].start == 0,
        tokens_of(w)[0].end == w.len(),
{
    let n = w.len() as int;
    let b = low_bytes(w);
    assert(is_plain_text(w));
    assert forall|i: int| 0 <= i < n implies is_low(#[trigger] w[i]) by {}
    lemma_first_high_none(w, 0);
    assert(w.subrange(0, n) =~= w);
    assert forall|x: int| 0 <= x < n implies in_word(b, x) && b[x] != 95 by {
        lemma_low_byte(w[x]);
        assert(b[x] == w[x] as u8);
    }
    lemma_whole_run(b, 0);
    assert(!only_connectors(b, 0, n)) by {
        assert(b[0] != 95);
    }
    assert(word_runs(b, n) =~= Seq::empty());
    assert(word_runs(b, 0) =~= seq![(0int, n)]);
    let ws = words_from(w, 0);
    assert(ws.len() == 1 && ws[0] == (bytes_before(w, 0) + 0, w.subrange(0, n)));
    lemma_same_case_len(w, w, n);
    folding_lowers_ascii(w, 0);
    let f = fold(w);
    assert forall|i: int| 0 <= i < f.len() implies 0x20 <= (#[trigger] f[i]) as u32 <= 0x7E by {
        folding_lowers_ascii(w, i);
    }
    lemma_same_case_len(f, f, n);
    assert(tokens_of_words(ws, 0) =~= Seq::empty());
    assert(tokens_of_words(ws, 1) =~= seq![TokenView { term: f, pos: 0, start: 0, end: n }]);
    assert(terms_of(w) =~= seq![f]);
}

/// A longer word of letters and digits is no term, but keeps its place.
pub proof fn long_words_are_no_terms(w: Seq<char>)
    requires
        w.len() > 64,
        forall|i: int|
            0 <= i < w.len() ==> {
                ||| 97 <= (#[trigger] w[i]) as u32 <= 122
                ||| 65 <= w[i] as u32 <= 90
                ||| 48 <= w[i] as u32 <= 57
            },
    ensures
        terms_of(w).len() == 0,
        words_from(w, 0).len() == 1,
{
    let n = w.len() as int;
    let b = low_bytes(w);
    assert(is_plain_text(w));
    assert forall|i: int| 0 <= i < n implies is_low(#[trigger] w[i]) by {}
    lemma_first_high_none(w, 0);
    assert(w.subrange(0, n) =~= w);
    assert forall|x: int| 0 <= x < n implies in_word(b, x) && b[x] != 95 by {
        lemma_low_byte(w[x]);
        assert(b[x] == w[x] as u8);
    }
    lemma_whole_run(b, 0);
    assert(!only_connectors(b, 0, n)) by {
        assert(b[0] != 95);
    }
    assert(word_runs(b, n) =~= Seq::empty());
    assert(word_runs(b, 0) =~= seq![(0int, n)]);
    let ws = words_from(w, 0);
    assert(ws.len() == 1 && ws[0] == (bytes_before(w, 0) + 0, w.subrange(0, n)));
    folding_lowers_ascii(w, 0);
    let f = fold(w);
    assert forall|i: int| 0 <= i < f.len() implies 0x20 <= (#[trigger] f[i]) as u32 <= 0x7E by {
        folding_lowers_ascii(w, i);
    }
    lemma_same_case_len(f, f, n);
    assert(tokens_of_words(ws, 0) =~= Seq::empty());
    assert(tokens_of_words(ws, 1) =~= Seq::empty());
}

proof fn lemma_runs_before(a: Seq<u8>, c: Seq<u8>, i: int)
    requires
        0 <= i <= a.len() < c.len(),
        forall|x: int| 0 <= x < a.len() ==> in_word(a, x) == in_word(c, x) && a[x] == c[x],
        !in_word(c, a.len() as int),
    ensures
        word_runs(c, i) == word_runs(a, i) + word_runs(c, a.len() as int),
        i < a.len() && in_word(a, i) ==> run_end(c, i) == run_end(a, i),
    decreases a.len() - i,
{
    let n = a.len() as int;
    if i < n {
        if in_word(a, i) {
            lemma_run_end_before(a, c, i);
            lemma_run_grows(a, i);
            let e = run_end(a, i);
            lemma_runs_before(a, c, e);
            assert(only_connectors(a, i, e) == only_connectors(c, i, e)) by {
                if only_connectors(a, i, e) {
                    assert forall|x: int| i <= x < e implies #[trigger] c[x] == 95 by {
                        assert(a[x] == 95);
                    }
                }
                if only_connectors(c, i, e) {
                    assert forall|x: int| i <= x < e implies #[trigger] a[x] == 95 by {
                        assert(c[x] == 95);
                    }
                }
            }
            assert(word_runs(c, i) =~= word_runs(a, i) + word_runs(c, n));
        } else {
            lemma_runs_before(a, c, i + 1);
        }
    } else {
        assert(word_runs(a, i) =~= Seq::empty());
        assert(word_runs(c, i) =~= word_runs(a, i) + word_runs(c, n));
    }
}

proof fn lemma_run_end_before(a: Seq<u8>, c: Seq<u8>, i: int)
    requires
        0 <= i <= a.len() < c.len(),
        forall|x: int| 0 <= x < a.len() ==> in_word(a, x) == in_word(c, x),
        !in_word(c, a.len() as int),
    ensures
        run_end(c, i) == run_end(a, i),
    decreases a.len() - i,
{
    if in_word(a, i) {
        lemma_run_end_before(a, c, i + 1);
    }
}

proof fn lemma_run_end_behind(b: Seq<u8>, c: Seq<u8>, m: int, i: int)
    requires
        0 <= i,
        0 <= m,
        c.len() == m + b.len(),
        forall|x: int| 0 <= x ==> #[trigger] in_word(b, x) == in_word(c, m + x),
    ensures
        run_end(c, m + i) == m + run_end(b, i),
    decreases b.len() - i,
{
    assert(in_word(b, i) == in_word(c, m + i));
    if in_word(b, i) {
        lemma_run_end_behind(b, c, m, i + 1);
    }
}

proof fn lemma_runs_behind(b: Seq<u8>, c: Seq<u8>, m: int, i: int)
    requires
        0 <= i,
        0 <= m,
        c.len() == m + b.len(),
        forall|x: int| 0 <= x ==> #[trigger] in_word(b, x) == in_word(c, m + x),
        forall|x: int| 0 <= x < b.len() ==> #[trigger] b[x] == c[m + x],
    ensures
        word_runs(c, m + i).len() == word_runs(b, i).len(),
        forall|k: int|
            0 <= k < word_runs(b, i).len() ==> word_runs(c, m + i)[k] == (m + (#[trigger] word_runs(b, i)[k]).0, m + word_runs(b, i)[k].1),
    decreases b.len() - i,
{
    assert(in_word(b, i) == in_word(c, m + i));
    if i < b.len() {
        if in_word(b, i) {
            lemma_run_end_behind(b, c, m, i);
            lemma_run_grows(b, i);
            let e = run_end(b, i);
            lemma_runs_behind(b, c, m, e);
            assert(only_connectors(b, i, e) == only_connectors(c, m + i, m + e)) by {
                if only_connectors(b, i, e) {
                    assert forall|x: int| m + i <= x < m + e implies #[trigger] c[x] == 95 by {
                        assert(b[x - m] == c[m + (x - m)]);
                    }
                }
                if only_connectors(c, m + i, m + e) {
                    assert forall|x: int| i <= x < e implies #[trigger] b[x] == 95 by {
                        assert(c[m + x] == 95);
                    }
                }
            }
            let (rb, rc) = (word_runs(b, e), word_runs(c, m + e));
            if !only_connectors(b, i, e) {
                assert forall|k: int| 0 <= k < word_runs(b, i).len() implies word_runs(c, m + i)[k] == (m + (#[trigger] word_runs(b, i)[k]).0, m
                    + word_runs(b, i)[k].1) by {
                    if k > 0 {
                        assert(word_runs(b, i)[k] == rb[k - 1]);
                        assert(word_runs(c, m + i)[k] == rc[k - 1]);
                    }
                }
            } else {
                assert(word_runs(b, i) == rb && word_runs(c, m + i) == rc);
            }
        } else {
            lemma_runs_behind(b, c, m, i + 1);
            assert(word_runs(b, i) == word_runs(b, i + 1) && word_runs(c, m + i) == word_runs(c, m + (i + 1)));
        }
    }
}

/// A token that stands `words` words and `bytes` bytes further on.
pub open spec fn moved_token(t: TokenView, words: int, bytes: int) -> TokenView {
    TokenView { term: t.term, pos: t.pos + words, start: t.start + bytes, end: t.end + bytes }
}

proof fn lemma_tokens_joined(wa: Seq<(int, Seq<char>)>, wb: Seq<(int, Seq<char>)>, ws: Seq<(int, Seq<char>)>, m: int, n: int)
    requires
        ws.len() == wa.len() + wb.len(),
        forall|k: int| 0 <= k < wa.len() ==> #[trigger] ws[k] == wa[k],
        forall|k: int| 0 <= k < wb.len() ==> ws[wa.len() + k] == (m + (#[trigger] wb[k]).0, wb[k].1),
        0 <= n <= ws.len(),
    ensures
        n <= wa.len() ==> tokens_of_words(ws, n) == tokens_of_words(wa, n),
        n >= wa.len() ==> tokens_of_words(ws, n) == tokens_of_words(wa, wa.len() as int) + tokens_of_words(wb, n - wa.len()).map_values(
            |t: TokenView| moved_token(t, wa.len() as int, m),
        ),
    decreases n,
{
    let move_on = |t: TokenView| moved_token(t, wa.len() as int, m);
    let ta = tokens_of_words(wa, wa.len() as int);
    if n > 0 {
        lemma_tokens_joined(wa, wb, ws, m, n - 1);
        if n <= wa.len() {
            assert(ws[n - 1] == wa[n - 1]);
        } else {
            let j = n - 1 - wa.len();
            assert(ws[wa.len() + j] == (m + wb[j].0, wb[j].1));
            let (p, q) = (tokens_of_words(wb, j), tokens_of_words(wb, j + 1));
            assert(tokens_of_words(ws, n) =~= ta + q.map_values(move_on));
        }
    }
    if n == wa.len() {
        assert(tokens_of_words(wb, 0) =~= Seq::empty());
        assert(tokens_of_words(ws, n) =~= ta + tokens_of_words(wb, 0).map_values(move_on));
    }
}

/// A character of ASCII that ends a word: no letter or digit, no `_`, and none
/// that can join two letters or two digits.
pub open spec fn is_break(c: char) -> bool {
    let x = c as u32;
    &&& 0x20 <= x <= 0x7E
    &&& !(97 <= x <= 122) && !(65 <= x <= 90) && !(48 <= x <= 57)
    &&& c != '_' && c != ':' && c != '.' && c != '\'' && c != ',' && c != ';'
}

/// Two texts with a break between, such as a space or a hyphen, have the tokens
/// of the first, and behind them those of the second, moved on by the words and
/// bytes before it.
pub proof fn analysis_goes_word_by_word(a: Seq<char>, sep: char, b: Seq<char>)
    requires
        is_plain_text(a),
        is_plain_text(b),
        is_break(sep),
    ensures
        tokens_of(a + seq![sep] + b) == tokens_of(a) + tokens_of(b).map_values(
            |t: TokenView| moved_token(t, words_from(a, 0).len() as int, a.len() as int + 1),
        ),
        terms_of(a + seq![sep] + b) == terms_of(a) + terms_of(b),
{
    let c = a + seq![sep] + b;
    let m = a.len() as int + 1;
    assert forall|i: int| 0 <= i < c.len() implies 0x20 <= (#[trigger] c[i]) as u32 <= 0x7E by {
        if i < a.len() {
            assert(c[i] == a[i]);
        } else if i >= m {
            assert(c[i] == b[i - m]);
        }
    }
    assert forall|i: int| 0 <= i < a.len() implies is_low(#[trigger] a[i]) by {}
    assert forall|i: int| 0 <= i < b.len() implies is_low(#[trigger] b[i]) by {}
    assert forall|i: int| 0 <= i < c.len() implies is_low(#[trigger] c[i]) by {}
    lemma_first_high_none(a, 0);
    lemma_first_high_none(b, 0);
    lemma_first_high_none(c, 0);
    assert(a.subrange(0, a.len() as int) =~= a);
    assert(b.subrange(0, b.len() as int) =~= b);
    assert(c.subrange(0, c.len() as int) =~= c);
    let (la, lb, lc) = (low_bytes(a), low_bytes(b), low_bytes(c));
    assert(c[a.len() as int] == sep);
    lemma_low_byte(sep);
    assert(lc[a.len() as int] == sep as u8);
    assert forall|x: int| 0 <= x < la.len() implies in_word(la, x) == in_word(lc, x) && la[x] == lc[x] by {
        assert(c[x] == a[x]);
        if x > 0 {
            assert(c[x - 1] == a[x - 1]);
        }
        if x + 1 < la.len() {
            assert(c[x + 1] == a[x + 1]);
        }
    }
    assert forall|x: int| 0 <= x < lb.len() implies #[trigger] lb[x] == lc[m + x] by {
        assert(c[m + x] == b[x]);
    }
    assert forall|x: int| 0 <= x implies #[trigger] in_word(lb, x) == in_word(lc, m + x) by {
        if x < lb.len() {
            assert(lb[x] == lc[m + x]);
            if x > 0 {
                assert(lb[x - 1] == lc[m + (x - 1)]);
            }
            if x + 1 < lb.len() {
                assert(lb[x + 1] == lc[m + (x + 1)]);
            }
        }
    }
    lemma_runs_before(la, lc, 0);
    lemma_runs_behind(lb, lc, m, 0);
    assert(word_runs(lc, a.len() as int) == word_runs(lc, m));
    lemma_runs_inside(la, 0);
    lemma_runs_inside(lb, 0);
    let (ra, rb, rc) = (word_runs(la, 0), word_runs(lb, 0), word_runs(lc, 0));
    let (wa, wb, wc) = (words_from(a, 0), words_from(b, 0), words_from(c, 0));
    assert(wa.len() == ra.len() && wb.len() == rb.len() && wc.len() == rc.len());
    assert forall|k: int| 0 <= k < wa.len() implies #[trigger] wc[k] == wa[k] by {
        assert(rc[k] == ra[k]);
        assert(c.subrange(ra[k].0, ra[k].1) =~= a.subrange(ra[k].0, ra[k].1));
    }
    assert forall|k: int| 0 <= k < wb.len() implies wc[wa.len() + k] == (m + (#[trigger] wb[k]).0, wb[k].1) by {
        assert(rc[ra.len() + k] == word_runs(lc, m)[k]);
        assert(rc[ra.len() + k] == (m + rb[k].0, m + rb[k].1));
        assert(c.subrange(m + rb[k].0, m + rb[k].1) =~= b.subrange(rb[k].0, rb[k].1));
    }
    lemma_tokens_joined(wa, wb, wc, m, wc.len() as int);
    assert(terms_of(c) =~= terms_of(a) + terms_of(b));
}

proof fn lemma_first_high_none(cs: Seq<char>, i: int)
    requires
        0 <= i <= cs.len(),
        forall|x: int| 0 <= x < cs.len() ==> is_low(#[trigger] cs[x]),
    ensures
        first_high(cs, i) == cs.len(),
    decreases cs.len() - i,
{
    if i < cs.len() {
        assert(is_low(cs[i]));
        lemma_first_high_none(cs, i + 1);
    }
}

proof fn lemma_runs_inside(b: Seq<u8>, i: int)
    requires
        0 <= i,
    ensures
        forall|k: int| 0 <= k < word_runs(b, i).len() ==> i <= (#[trigger] word_runs(b, i)[k]).0 <= word_runs(b, i)[k].1 <= b.len(),
    decreases b.len() - i,
{
    if i < b.len() {
        lemma_run_grows(b, i);
        if in_word(b, i) {
            let e = run_end(b, i);
            let (all, rest) = (word_runs(b, i), word_runs(b, e));
            lemma_runs_inside(b, e);
            assert forall|k: int| 0 <= k < all.len() implies i <= (#[trigger] all[k]).0 <= all[k].1 <= b.len() by {
                if only_connectors(b, i, e) {
                    assert(all == rest);
                    assert(rest[k].0 >= e);
                } else if k > 0 {
                    assert(all[k] == rest[k - 1]);
                }
            }
        } else {
            lemma_runs_inside(b, i + 1);
            let rest = word_runs(b, i + 1);
            assert(word_runs(b, i) == rest);
            assert forall|k: int| 0 <= k < rest.len() implies i <= (#[trigger] rest[k]).0 <= rest[k].1 <= b.len() by {
            }
        }
    }
}

proof fn lemma_same_case_len(a: Seq<char>, b: Seq<char>, n: int)
    requires
        is_plain_text(a),
        is_plain_text(b),
        a.len() == b.len(),
        0 <= n <= a.len(),
    ensures
        bytes_before(a, n) == n,
        bytes_before(b, n) == n,
    decreases n,
{
    if n > 0 {
        lemma_same_case_len(a, b, n - 1);
        assert(a[n - 1] as u32 <= 0x7E && b[n - 1] as u32 <= 0x7E);
    }
}

proof fn lemma_tokens_ignore_case(wa: Seq<(int, Seq<char>)>, wb: Seq<(int, Seq<char>)>, n: int)
    requires
        wa.len() == wb.len(),
        0 <= n <= wa.len(),
        forall|k: int| 0 <= k < wa.len() ==> (#[trigger] wa[k]).0 == wb[k].0 && same_but_case(wa[k].1, wb[k].1) && is_plain_text(wa[k].1) && is_plain_text(wb[k].1),
    ensures
        tokens_of_words(wa, n) == tokens_of_words(wb, n),
    decreases n,
{
    if n > 0 {
        lemma_tokens_ignore_case(wa, wb, n - 1);
        assert(wa[n - 1].0 == wb[n - 1].0);
        folding_ignores_case(wa[n - 1].1, wb[n - 1].1);
        lemma_same_case_len(wa[n - 1].1, wb[n - 1].1, wa[n - 1].1.len() as int);
    }
}

proof fn lemma_tokens_kept(ws: Seq<(int, Seq<char>)>, n: int)
    ensures
        forall|k: int| 0 <= k < tokens_of_words(ws, n).len() ==> is_kept((#[trigger] tokens_of_words(ws, n)[k]).term),
    decreases n,
{
    if n > 0 {
        lemma_tokens_kept(ws, n - 1);
        let (p, q) = (tokens_of_words(ws, n - 1), tokens_of_words(ws, n));
        assert forall|k: int| 0 <= k < q.len() implies is_kept((#[trigger] q[k]).term) by {
            if k < p.len() {
                assert(q[k] == p[k]);
            }
        }
    }
}

/// Every term of a text has a character, and no more than 64 bytes.
pub proof fn terms_are_kept(text: Seq<char>)
    ensures
        forall|k: int| 0 <= k < terms_of(text).len() ==> is_kept(#[trigger] terms_of(text)[k]),
{
    lemma_tokens_kept(words_from(text, 0), words_from(text, 0).len() as int);
    assert forall|k: int| 0 <= k < terms_of(text).len() implies is_kept(#[trigger] terms_of(text)[k]) by {
        assert(terms_of(text)[k] == tokens_of(text)[k].term);
    }
}

/// The terms of a text, in order.
pub open spec fn terms_of(text: Seq<char>) -> Seq<Seq<char>> {
    tokens_of(text).map_values(|t: TokenView| t.term)
}

/// The strings' characters.
pub open spec fn strings_view(s: Seq<String>) -> Seq<Seq<char>> {
    s.map_values(|x: String| x@)
}

/// Turns text into terms.
pub struct Analyzer {
    /// The term being folded.
    buf: Vec<char>,
}

impl Default for Analyzer {
    fn default() -> (r: Self) {
        Analyzer { buf: Vec::new() }
    }
}

impl Analyzer {
    pub fn new() -> (r: Self) {
        Analyzer { buf: Vec::new() }
    }

    /// Every term in `text` with its position, which counts words, including
    /// dropped over-long ones, so gaps stay honest.
    pub fn for_each_term(&mut self, text: &str) -> (r: Vec<(String, u32)>)
        requires
            fits(text@),
        ensures
            r@.len() == tokens_of(text@).len(),
            forall|i: int| 0 <= i < r@.len() ==> (#[trigger] r@[i]).0@ == tokens_of(text@)[i].term && r@[i].1 == tokens_of(text@)[i].pos,
            forall|i: int| 0 <= i < r@.len() ==> (#[trigger] r@[i]).1 < text@.len(),
    {
        let toks: Vec<Token> = self.for_each_token(text);
        let mut out: Vec<(String, u32)> = Vec::new();
        let mut i: usize = 0;
        while i < toks.len()
            invariant
                i <= toks@.len(),
                token_views(toks@) == tokens_of(text@),
                out@.len() == i,
                forall|k: int| 0 <= k < toks@.len() ==> (#[trigger] toks@[k]).pos < text@.len(),
                forall|k: int| 0 <= k < i ==> (#[trigger] out@[k]).0@ == tokens_of(text@)[k].term && out@[k].1 == tokens_of(text@)[k].pos,
                forall|k: int| 0 <= k < i ==> (#[trigger] out@[k]).1 < text@.len(),
            decreases toks@.len() - i,
        {
            proof {
                assert(token_views(toks@)[i as int] == toks@[i as int]@);
            }
            out.push((toks[i].term.clone(), toks[i].pos));
            i = i + 1;
        }
        proof {
            assert(token_views(toks@).len() == toks@.len());
        }
        out
    }

    /// Like [`for_each_term`](Self::for_each_term), also giving each term's
    /// byte range in `text` (for highlighting).
    pub fn for_each_token(&mut self, text: &str) -> (r: Vec<Token>)
        requires
            fits(text@),
        ensures
            token_views(r@) == tokens_of(text@),
            forall|k: int| 0 <= k < r@.len() ==> (#[trigger] r@[k]).pos < text@.len(),
            forall|k: int| 0 <= k < r@.len() ==> (#[trigger] r@[k]).start <= r@[k].end <= byte_len(text@),
            in_order(tokens_of(text@)),
    {
        let ws: Vec<(usize, String)> = for_each_word(text);
        self.tokens(&ws, Ghost(text@))
    }

    fn tokens(&mut self, ws: &Vec<(usize, String)>, Ghost(text): Ghost<Seq<char>>) -> (r: Vec<Token>)
        requires
            fits(text),
            words_view(ws@) == words_from(text, 0),
            ws@.len() <= text.len(),
            words_fit(ws@, text),
            words_apart(ws@, byte_len(text)),
        ensures
            in_order(tokens_of(text)),
            token_views(r@) == tokens_of(text),
            forall|k: int| 0 <= k < r@.len() ==> (#[trigger] r@[k]).pos < text.len(),
            forall|k: int| 0 <= k < r@.len() ==> (#[trigger] r@[k]).start <= r@[k].end <= byte_len(text),
    {
        let ghost spec_ws = words_from(text, 0);
        proof {
            lemma_tokens_in_order(ws@, ws@.len() as int);
        }
        let mut out: Vec<Token> = Vec::new();
        let mut pos: u32 = 0;
        let mut i: usize = 0;
        proof {
            assert(token_views(out@) =~= Seq::empty());
            lemma_bytes_mono(text, 0, text.len() as int);
        }
        while i < ws.len()
            invariant
                fits(text),
                byte_len(text) <= u32::MAX,
                spec_ws == words_view(ws@),
                words_fit(ws@, text),
                ws@.len() <= text.len(),
                i <= ws@.len(),
                pos == i,
                token_views(out@) == tokens_of_words(spec_ws, i as int),
                forall|k: int| 0 <= k < out@.len() ==> (#[trigger] out@[k]).pos < i,
                forall|k: int| 0 <= k < out@.len() ==> (#[trigger] out@[k]).start <= out@[k].end <= byte_len(text),
            decreases ws@.len() - i,
        {
            let ghost w = ws@[i as int];
            proof {
                assert(spec_ws[i as int] == (w.0 as int, w.1@));
                assert(w.0 + byte_len(w.1@) <= byte_len(text));
                lemma_bytes_mono(w.1@, 0, w.1@.len() as int);
            }
            let word: &str = ws[i].1.as_str();
            self.buf = fold_word(word);
            let n: usize = self.buf.len();
            if n > 0 && n <= MAX_TERM_BYTES {
                proof {
                    lemma_bytes_mono(self.buf@, 0, n as int);
                }
                if utf8_len(self.buf.as_slice()) <= MAX_TERM_BYTES {
                    let term: String = string_of(self.buf.as_slice(), 0, n);
                    let cs: Vec<char> = chars_of(word);
                    let len: usize = utf8_len(cs.as_slice());
                    let start: usize = ws[i].0;
                    let ghost was = out@;
                    let t: Token = Token { term, pos, start, end: start + len };
                    out.push(t);
                    proof {
                        assert(term@ =~= fold(w.1@));
                        assert(token_views(out@) =~= token_views(was).push(t@));
                    }
                }
            } else {
                proof {
                    lemma_bytes_mono(self.buf@, 0, n as int);
                }
            }
            pos = pos + 1;
            i = i + 1;
        }
        out
    }

    /// Like [`for_each_term`](Self::for_each_term), but words for which
    /// `keep` has `false` at their position are skipped before folding (they
    /// still take a position). Returns the number of word positions too.
    pub fn for_each_term_if(&mut self, ws: &Vec<(usize, String)>, keep: &Vec<bool>) -> (r: (Vec<(String, u32)>, u32))
        requires
            ws@.len() <= u32::MAX,
            keep@.len() == ws@.len(),
        ensures
            r.1 == ws@.len(),
            kept_terms(words_view(ws@), keep@, ws@.len() as int) == r.0@.map_values(|e: (String, u32)| (e.0@, e.1 as int)),
            forall|k: int| 0 <= k < r.0@.len() ==> (#[trigger] r.0@[k]).1 < ws@.len(),
    {
        let ghost spec_ws = words_view(ws@);
        let ghost view = |e: (String, u32)| (e.0@, e.1 as int);
        let mut out: Vec<(String, u32)> = Vec::new();
        let mut pos: u32 = 0;
        let mut i: usize = 0;
        proof {
            assert(out@.map_values(view) =~= Seq::empty());
        }
        while i < ws.len()
            invariant
                ws@.len() <= u32::MAX,
                keep@.len() == ws@.len(),
                spec_ws == words_view(ws@),
                i <= ws@.len(),
                pos == i,
                view == (|e: (String, u32)| (e.0@, e.1 as int)),
                kept_terms(spec_ws, keep@, i as int) == out@.map_values(view),
                forall|k: int| 0 <= k < out@.len() ==> (#[trigger] out@[k]).1 < i,
            decreases ws@.len() - i,
        {
            proof {
                assert(spec_ws[i as int] == (ws@[i as int].0 as int, ws@[i as int].1@));
            }
            if keep[i] {
                self.buf = fold_word(ws[i].1.as_str());
                let n: usize = self.buf.len();
                proof {
                    lemma_bytes_mono(self.buf@, 0, n as int);
                }
                if n > 0 && n <= MAX_TERM_BYTES && utf8_len(self.buf.as_slice()) <= MAX_TERM_BYTES {
                    let term: String = string_of(self.buf.as_slice(), 0, n);
                    let ghost was = out@;
                    out.push((term, pos));
                    proof {
                        assert(term@ =~= fold(ws@[i as int].1@));
                        assert(out@.map_values(view) =~= was.map_values(view).push((term@, pos as int)));
                    }
                }
            }
            pos = pos + 1;
            i = i + 1;
        }
        (out, pos)
    }

    /// Convenience for query parsing.
    pub fn terms(&mut self, text: &str) -> (r: Vec<String>)
        requires
            fits(text@),
        ensures
            strings_view(r@) == terms_of(text@),
            r@.len() <= text@.len(),
    {
        let cs: Vec<char> = chars_of(text);
        self.terms_of_chars(cs.as_slice())
    }

    /// [`terms`](Self::terms) on the characters of a text.
    pub fn terms_of_chars(&mut self, cs: &[char]) -> (r: Vec<String>)
        requires
            fits(cs@),
        ensures
            strings_view(r@) == terms_of(cs@),
            r@.len() <= cs@.len(),
    {
        let ws: Vec<(usize, String)> = words_of_chars(cs);
        let toks: Vec<Token> = self.tokens(&ws, Ghost(cs@));
        let ghost views = token_views(toks@);
        let ghost want = terms_of(cs@);
        let mut out: Vec<String> = Vec::new();
        let mut i: usize = 0;
        proof {
            lemma_tokens_len(words_from(cs@, 0), words_from(cs@, 0).len() as int);
            assert(words_view(ws@).len() == ws@.len());
            assert(views.len() == toks@.len());
            assert(strings_view(out@) =~= want.take(0));
        }
        while i < toks.len()
            invariant
                i <= toks@.len(),
                views == token_views(toks@),
                views == tokens_of(cs@),
                want == terms_of(cs@),
                views.len() == toks@.len(),
                want.len() == toks@.len(),
                strings_view(out@) == want.take(i as int),
            decreases toks@.len() - i,
        {
            let t: String = toks[i].term.clone();
            let ghost was = out@;
            out.push(t);
            proof {
                assert(views[i as int] == toks@[i as int]@);
                assert(want[i as int] == t@);
                assert(strings_view(out@) =~= strings_view(was).push(t@));
                assert(want.take(i + 1) =~= want.take(i as int).push(t@));
            }
            i = i + 1;
        }
        proof {
            assert(want.take(i as int) =~= want);
            assert(strings_view(out@).len() == out@.len());
        }
        out
    }

    /// The distinct terms of `text`, sorted.
    pub fn unique_terms(&mut self, text: &str) -> (r: Vec<String>)
        requires
            fits(text@),
        ensures
            sorted_terms(strings_view(r@)),
            forall|t: Seq<char>| #[trigger] strings_view(r@).contains(t) <==> terms_of(text@).contains(t),
    {
        let all: Vec<String> = self.terms(text);
        let mut out: Vec<Vec<char>> = Vec::new();
        let mut i: usize = 0;
        while i < all.len()
            invariant
                i <= all@.len(),
                sorted_terms(chars_view(out@)),
                forall|t: Seq<char>| #[trigger] chars_view(out@).contains(t) <==> strings_view(all@).take(i as int).contains(t),
            decreases all@.len() - i,
        {
            let t: Vec<char> = chars_of(all[i].as_str());
            let ghost was = chars_view(out@);
            let ghost tv = t@;
            insert_sorted(&mut out, t);
            proof {
                let av = strings_view(all@);
                assert(av.take(i + 1) =~= av.take(i as int).push(tv));
                assert forall|x: Seq<char>| #[trigger] chars_view(out@).contains(x) <==> av.take(i + 1).contains(x) by {
                    crate::space::lemma_push_contains(av.take(i as int), tv, x);
                    assert(was.contains(x) <==> av.take(i as int).contains(x));
                }
            }
            i = i + 1;
        }
        proof {
            assert(strings_view(all@).take(i as int) =~= strings_view(all@));
        }
        let mut r: Vec<String> = Vec::new();
        let mut k: usize = 0;
        proof {
            assert(strings_view(r@) =~= chars_view(out@).take(0));
        }
        while k < out.len()
            invariant
                k <= out@.len(),
                strings_view(r@) == chars_view(out@).take(k as int),
            decreases out@.len() - k,
        {
            let s: String = string_of(out[k].as_slice(), 0, out[k].len());
            let ghost was = r@;
            r.push(s);
            proof {
                assert(s@ =~= out@[k as int]@);
                assert(strings_view(r@) =~= strings_view(was).push(s@));
                assert(chars_view(out@).take(k + 1) =~= chars_view(out@).take(k as int).push(s@));
            }
            k = k + 1;
        }
        proof {
            assert(chars_view(out@).take(k as int) =~= chars_view(out@));
        }
        r
    }
}

/// The terms of the first `n` words that are kept, with their positions.
pub open spec fn kept_terms(ws: Seq<(int, Seq<char>)>, keep: Seq<bool>, n: int) -> Seq<(Seq<char>, int)>
    decreases n,
{
    if n <= 0 {
        Seq::empty()
    } else {
        let rest = kept_terms(ws, keep, n - 1);
        if keep[n - 1] && is_kept(fold(ws[n - 1].1)) {
            rest.push((fold(ws[n - 1].1), n - 1))
        } else {
            rest
        }
    }
}

pub proof fn lemma_tokens_len(ws: Seq<(int, Seq<char>)>, n: int)
    requires
        0 <= n,
    ensures
        tokens_of_words(ws, n).len() <= n,
    decreases n,
{
    if n > 0 {
        lemma_tokens_len(ws, n - 1);
    }
}

/// In alphabetical order, with no repeats.
pub open spec fn sorted_terms(s: Seq<Seq<char>>) -> bool {
    forall|i: int, j: int| 0 <= i < j < s.len() ==> char_less(#[trigger] s[i], #[trigger] s[j])
}

/// The texts' characters.
pub open spec fn chars_view(s: Seq<Vec<char>>) -> Seq<Seq<char>> {
    s.map_values(|x: Vec<char>| x@)
}

/// Add a term to a sorted list that may hold it already.
pub fn insert_sorted(list: &mut Vec<Vec<char>>, t: Vec<char>)
    requires
        sorted_terms(chars_view(old(list)@)),
    ensures
        sorted_terms(chars_view(final(list)@)),
        forall|x: Seq<char>| #[trigger] chars_view(final(list)@).contains(x) <==> chars_view(old(list)@).contains(x) || x == t@,
{
    let ghost v = chars_view(list@);
    let mut lo: usize = 0;
    let mut hi: usize = list.len();
    while lo < hi
        invariant
            v == chars_view(list@),
            sorted_terms(v),
            lo <= hi <= list@.len(),
            forall|i: int| 0 <= i < lo ==> char_less(#[trigger] v[i], t@),
            forall|i: int| hi <= i < v.len() ==> char_less(t@, #[trigger] v[i]),
        decreases hi - lo,
    {
        let mid: usize = lo + (hi - lo) / 2;
        let c: i8 = compare(list[mid].as_slice(), t.as_slice());
        proof {
            assert(v[mid as int] == list@[mid as int]@);
        }
        if c < 0 {
            proof {
                assert forall|i: int| 0 <= i < mid + 1 implies char_less(#[trigger] v[i], t@) by {
                    if i < mid {
                        crate::text::lemma_less_trans(v[i], v[mid as int], t@);
                    }
                }
            }
            lo = mid + 1;
        } else if c > 0 {
            proof {
                assert forall|i: int| mid <= i < v.len() implies char_less(t@, #[trigger] v[i]) by {
                    if i > mid {
                        crate::text::lemma_less_trans(t@, v[mid as int], v[i]);
                    }
                }
            }
            hi = mid;
        } else {
            proof {
                assert(v.contains(t@)) by {
                    assert(v[mid as int] == t@);
                }
            }
            return;
        }
    }
    let ghost tv = t@;
    list.insert(lo, t);
    proof {
        let w = chars_view(list@);
        assert(w =~= v.insert(lo as int, tv));
        assert forall|i: int, j: int| 0 <= i < j < w.len() implies char_less(#[trigger] w[i], #[trigger] w[j]) by {
            let a = if i < lo { i } else { i - 1 };
            let b = if j < lo { j } else { j - 1 };
            if i != lo && j != lo {
                assert(char_less(v[a], v[b]));
            } else if i == lo {
                assert(char_less(tv, v[b]));
            } else {
                assert(char_less(v[a], tv));
            }
        }
        assert forall|x: Seq<char>| #[trigger] w.contains(x) <==> v.contains(x) || x == tv by {
            if v.contains(x) {
                let i = v.index_of(x);
                assert(w[if i < lo { i } else { i + 1 }] == x);
            }
            if x == tv {
                assert(w[lo as int] == x);
            }
            if w.contains(x) {
                let i = w.index_of(x);
                if i < lo {
                    assert(v[i] == x);
                } else if i > lo {
                    assert(v[i - 1] == x);
                }
            }
        }
    }
}

} // verus!
