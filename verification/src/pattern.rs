//! Term patterns for identifier search: typo-tolerant matching and n-grams.
//!
//! * [`Osa`] accepts every term within `k` edits of a query, where an edit is
//!   an insertion, deletion, substitution, or a swap of two neighbouring
//!   characters (optimal string alignment). Plain Levenshtein counts a swap
//!   as two edits, which would miss the most common typo in typed numbers.
//! * [`grams`] yields the character trigrams of a term, and [`wide_grams`] each
//!   with the character behind it. Indexes built with grams store the wide ones
//!   as extra terms under [`GRAM_MARK`], so a fragment (`*1234565*`) becomes an
//!   AND over its own: a candidate set that a final `contains` check makes
//!   exact. A fragment of three characters is a trigram, and starts a wide gram
//!   of every term that contains it.
//!
//! Distances are over bytes; terms are case- and accent-folded already, and
//! identifiers are ASCII.

use vstd::prelude::*;
use vstd::string::*;
use vstd::utf8::encode_utf8;
use crate::text::{chars_of, occurs, same_chars, starts, string_of};
use crate::tokenize::{chars_view, strings_view};

verus! {

/// Prefix of gram terms. The analyzer never emits control characters, so gram
/// terms can't collide with real ones.
pub const GRAM_MARK: char = '\u{1}';

/// Fragments shorter than this can't use grams.
pub const GRAM_LEN: usize = 3;

/// What follows a term's last character in its last wide gram.
pub const GRAM_END: char = '\u{2}';

/// Bytes of the longest term that an index with grams takes.
pub const MAX_GRAM_TERM: usize = 64;

/// The `i`th trigram term of `t`.
pub open spec fn gram_at(t: Seq<char>, i: int) -> Seq<char> {
    seq!['\u{1}', t[i], t[i + 1], t[i + 2]]
}

/// The distinct ones of the first `n` trigrams, in order of first appearance.
pub open spec fn grams_upto(t: Seq<char>, n: int) -> Seq<Seq<char>>
    decreases n,
{
    if n <= 0 {
        Seq::empty()
    } else {
        let rest = grams_upto(t, n - 1);
        if rest.contains(gram_at(t, n - 1)) {
            rest
        } else {
            rest.push(gram_at(t, n - 1))
        }
    }
}

/// The distinct trigrams of a term.
pub open spec fn grams_of(t: Seq<char>) -> Seq<Seq<char>> {
    grams_upto(t, t.len() - 2)
}

/// Each distinct trigram term (`GRAM_MARK` + 3 chars) of `term`, in order of
/// first appearance.
pub fn grams(term: &str) -> (r: Vec<String>)
    ensures
        strings_view(r@) == grams_of(term@),
{
    let cs: Vec<char> = chars_of(term);
    let n: usize = cs.len();
    let mut out: Vec<String> = Vec::new();
    let mut seen: Vec<Vec<char>> = Vec::new();
    let mut i: usize = 0;
    proof {
        assert(strings_view(out@) =~= Seq::empty());
        assert(chars_view(seen@) =~= Seq::empty());
    }
    while n >= GRAM_LEN && i < n - 2
        invariant
            n == cs@.len(),
            cs@ == term@,
            i <= n,
            n >= 3 ==> i <= n - 2,
            n < 3 ==> i == 0,
            strings_view(out@) == grams_upto(term@, i as int),
            chars_view(seen@) == grams_upto(term@, i as int),
        decreases n - i,
    {
        let g: Vec<char> = vec![GRAM_MARK, cs[i], cs[i + 1], cs[i + 2]];
        assert(g@ =~= gram_at(term@, i as int));
        let mut k: usize = 0;
        let mut found: bool = false;
        while k < seen.len() && !found
            invariant
                k <= seen@.len(),
                !found ==> forall|j: int| 0 <= j < k ==> (#[trigger] seen@[j])@ != g@,
                found ==> chars_view(seen@).contains(g@),
            decreases seen@.len() - k + (if found { 0int } else { 1 }),
        {
            if same_chars(seen[k].as_slice(), g.as_slice()) {
                proof {
                    assert(chars_view(seen@)[k as int] == g@);
                }
                found = true;
            } else {
                k = k + 1;
            }
        }
        if !found {
            proof {
                assert(!chars_view(seen@).contains(g@)) by {
                    if chars_view(seen@).contains(g@) {
                        let j = chars_view(seen@).index_of(g@);
                        assert(seen@[j]@ == g@);
                    }
                }
            }
            let s: String = string_of(g.as_slice(), 0, 4);
            let ghost (ov, sv) = (out@, seen@);
            let ghost gv = g@;
            out.push(s);
            seen.push(g);
            proof {
                assert(s@ =~= gv);
                assert(strings_view(out@) =~= strings_view(ov).push(gv));
                assert(chars_view(seen@) =~= chars_view(sv).push(gv));
            }
        }
        i = i + 1;
    }
    proof {
        if n < 3 {
            assert(grams_of(term@) == grams_upto(term@, 0));
        }
    }
    out
}

/// The `i`th wide gram of `t`: the trigram and the character behind it, or the
/// end marker.
pub open spec fn wide_gram_at(t: Seq<char>, i: int) -> Seq<char> {
    gram_at(t, i).push(
        if i + 3 < t.len() {
            t[i + 3]
        } else {
            '\u{2}'
        },
    )
}

/// The wide grams of a term.
pub open spec fn wide_grams_of(t: Seq<char>) -> Set<Seq<char>> {
    Set::new(|g: Seq<char>| exists|i: int| 0 <= i <= t.len() - 3 && #[trigger] wide_gram_at(t, i) == g)
}

/// The wide grams that lie inside a fragment.
pub open spec fn inner_grams(f: Seq<char>) -> Set<Seq<char>> {
    Set::new(|g: Seq<char>| exists|i: int| 0 <= i <= f.len() - 4 && #[trigger] wide_gram_at(f, i) == g)
}

/// Whether a term is a gram.
pub open spec fn is_gram(t: Seq<char>) -> bool {
    t.len() > 0 && t[0] == '\u{1}'
}

/// Whether a key is that of a gram.
pub open spec fn is_gram_key(k: Seq<u8>) -> bool {
    k.len() > 0 && k[0] == 1
}

/// A gram is known by its key.
pub proof fn lemma_gram_key(t: Seq<char>)
    ensures
        is_gram_key(encode_utf8(t)) <==> is_gram(t),
{
    if t.len() > 0 {
        let (c, rest) = (t[0], t.drop_first());
        let s = vstd::utf8::encode_scalar(c as u32);
        assert(encode_utf8(t) == s + encode_utf8(rest));
        lemma_first_byte(c);
        assert((s + encode_utf8(rest))[0] == s[0]);
    }
}

proof fn lemma_first_byte(c: char)
    ensures
        vstd::utf8::encode_scalar(c as u32).len() > 0,
        vstd::utf8::encode_scalar(c as u32)[0] == 1 <==> c == '\u{1}',
{
    let x = c as u32;
    assert(x <= 0x7F ==> (x & 0x7F) == x) by (bit_vector);
    assert(0xC0u8 | (((x >> 6) & 0x1F) as u8) >= 0xC0u8) by (bit_vector);
    assert(0xE0u8 | (((x >> 12) & 0x0F) as u8) >= 0xE0u8) by (bit_vector);
    assert(0xF0u8 | (((x >> 18) & 0x7) as u8) >= 0xF0u8) by (bit_vector);
}

/// Every wide gram is a gram.
pub proof fn lemma_wide_is_gram(t: Seq<char>, g: Seq<char>)
    requires
        wide_grams_of(t).contains(g),
    ensures
        is_gram(g),
        g.len() == 5,
{
}

/// The wide grams of a part of a term that lie inside it are the term's own.
pub proof fn lemma_wide_of_part(t: Seq<char>, f: Seq<char>, i: int)
    requires
        occurs(t, f),
        0 <= i <= f.len() - 4,
    ensures
        wide_grams_of(t).contains(wide_gram_at(f, i)),
{
    let at = choose|at: int| 0 <= at <= t.len() - f.len() && #[trigger] t.subrange(at, at + f.len()) == f;
    let s = t.subrange(at, at + f.len());
    assert(s[i] == t[at + i] && s[i + 1] == t[at + i + 1] && s[i + 2] == t[at + i + 2] && s[i + 3] == t[at + i + 3]);
    assert(wide_gram_at(t, at + i) =~= wide_gram_at(f, i));
}

/// Three characters occur in a term exactly if they start one of its wide grams.
pub proof fn lemma_trigram_exact(t: Seq<char>, f: Seq<char>)
    requires
        f.len() == 3,
    ensures
        occurs(t, f) <==> exists|g: Seq<char>| #[trigger] wide_grams_of(t).contains(g) && starts(g, gram_at(f, 0)),
{
    let p = gram_at(f, 0);
    if occurs(t, f) {
        let at = choose|at: int| 0 <= at <= t.len() - f.len() && #[trigger] t.subrange(at, at + f.len()) == f;
        let s = t.subrange(at, at + f.len());
        assert(s[0] == t[at] && s[1] == t[at + 1] && s[2] == t[at + 2]);
        let g = wide_gram_at(t, at);
        assert(g.subrange(0, 4) =~= p);
        assert(wide_grams_of(t).contains(g));
        assert(starts(g, p));
    }
    if exists|g: Seq<char>| #[trigger] wide_grams_of(t).contains(g) && starts(g, p) {
        let g = choose|g: Seq<char>| #[trigger] wide_grams_of(t).contains(g) && starts(g, p);
        let i = choose|i: int| 0 <= i <= t.len() - 3 && #[trigger] wide_gram_at(t, i) == g;
        let s = g.subrange(0, 4);
        assert(s[1] == g[1] && s[2] == g[2] && s[3] == g[3]);
        assert(t.subrange(i, i + f.len()) =~= f);
    }
}

/// The wide gram terms of `term`, in order of appearance.
pub fn wide_grams(term: &str) -> (r: Vec<String>)
    ensures
        strings_view(r@).to_set() == wide_grams_of(term@),
        r@.len() == if term@.len() >= 3 { term@.len() - 2 } else { 0 },
        forall|i: int| 0 <= i < r@.len() ==> (#[trigger] r@[i])@ == wide_gram_at(term@, i),
{
    let cs: Vec<char> = chars_of(term);
    let n: usize = cs.len();
    let mut out: Vec<String> = Vec::new();
    while n >= GRAM_LEN && out.len() < n - 2
        invariant
            n == cs@.len(),
            cs@ == term@,
            n >= 3 ==> out@.len() <= n - 2,
            n < 3 ==> out@.len() == 0,
            forall|k: int| 0 <= k < out@.len() ==> (#[trigger] out@[k])@ == wide_gram_at(term@, k),
        decreases n - out@.len(),
    {
        let i: usize = out.len();
        let last: char = if i + 3 < n {
            cs[i + 3]
        } else {
            GRAM_END
        };
        let g: Vec<char> = vec![GRAM_MARK, cs[i], cs[i + 1], cs[i + 2], last];
        let s: String = string_of(g.as_slice(), 0, 5);
        proof {
            assert(s@ =~= wide_gram_at(term@, i as int));
        }
        out.push(s);
    }
    proof {
        let all = strings_view(out@);
        assert forall|g: Seq<char>| all.to_set().contains(g) <==> wide_grams_of(term@).contains(g) by {
            if all.contains(g) {
                let k = all.index_of(g);
                assert(out@[k]@ == g);
            }
            if wide_grams_of(term@).contains(g) {
                let k = choose|k: int| 0 <= k <= term@.len() - 3 && #[trigger] wide_gram_at(term@, k) == g;
                assert(out@[k]@ == g);
                assert(all[k] == g);
            }
        }
        assert(all.to_set() =~= wide_grams_of(term@));
    }
    out
}

// ---------------------------------------------------------------------------
// Edit distance
// ---------------------------------------------------------------------------

spec fn min2(a: int, b: int) -> int {
    if a < b {
        a
    } else {
        b
    }
}

/// The optimal string alignment distance of `a[..i]` and `b[..j]`.
pub open spec fn osa(a: Seq<u8>, b: Seq<u8>, i: int, j: int) -> int
    decreases i + j,
{
    if i <= 0 {
        if j <= 0 {
            0
        } else {
            j
        }
    } else if j <= 0 {
        i
    } else {
        let del = osa(a, b, i - 1, j) + 1;
        let ins = osa(a, b, i, j - 1) + 1;
        let sub = osa(a, b, i - 1, j - 1) + if a[i - 1] == b[j - 1] {
            0int
        } else {
            1int
        };
        let one = if del < ins {
            if del < sub {
                del
            } else {
                sub
            }
        } else if ins < sub {
            ins
        } else {
            sub
        };
        if i >= 2 && j >= 2 && a[i - 1] == b[j - 2] && a[i - 2] == b[j - 1] && osa(a, b, i - 2, j - 2) + 1 < one {
            osa(a, b, i - 2, j - 2) + 1
        } else {
            one
        }
    }
}

/// The optimal string alignment distance.
pub open spec fn osa_distance(a: Seq<u8>, b: Seq<u8>) -> int {
    osa(a, b, a.len() as int, b.len() as int)
}

/// Whether two terms are within `k` edits.
pub open spec fn within(a: Seq<char>, b: Seq<char>, k: int) -> bool {
    osa_distance(encode_utf8(a), encode_utf8(b)) <= k
}

/// A distance is at least the difference in length.
proof fn lemma_osa_len(a: Seq<u8>, b: Seq<u8>, i: int, j: int)
    requires
        0 <= i,
        0 <= j,
    ensures
        osa(a, b, i, j) >= i - j,
        osa(a, b, i, j) >= j - i,
        osa(a, b, i, j) >= 0,
    decreases i + j,
{
    if i > 0 && j > 0 {
        lemma_osa_len(a, b, i - 1, j);
        lemma_osa_len(a, b, i, j - 1);
        lemma_osa_len(a, b, i - 1, j - 1);
        if i >= 2 && j >= 2 {
            lemma_osa_len(a, b, i - 2, j - 2);
        }
    }
}

/// Once a whole row is past `k`, every later one is.
proof fn lemma_osa_past(a: Seq<u8>, b: Seq<u8>, i: int, i2: int, j: int, m: int, k: int)
    requires
        0 <= i <= i2,
        0 <= j <= m,
        forall|x: int| 0 <= x <= m ==> #[trigger] osa(a, b, i, x) > k,
    ensures
        osa(a, b, i2, j) > k,
    decreases i2 + j,
{
    if i < i2 {
        if j > 0 {
            lemma_osa_past(a, b, i, i2 - 1, j, m, k);
            lemma_osa_past(a, b, i, i2, j - 1, m, k);
            lemma_osa_past(a, b, i, i2 - 1, j - 1, m, k);
            if i2 >= 2 && j >= 2 {
                if i2 - 2 >= i {
                    lemma_osa_past(a, b, i, i2 - 2, j - 2, m, k);
                } else {
                    assert(osa(a, b, i, j - 2) > k);
                    assert(osa(a, b, i, j - 2) <= osa(a, b, i - 1, j - 2) + 1);
                }
            }
        } else {
            assert(osa(a, b, i, 0) > k);
        }
    }
}

/// The distance depends on the prefixes only.
proof fn lemma_osa_prefix(a: Seq<u8>, a2: Seq<u8>, b: Seq<u8>, i: int, j: int)
    requires
        0 <= i <= a.len(),
        i <= a2.len(),
        forall|x: int| 0 <= x < i ==> a[x] == a2[x],
    ensures
        osa(a, b, i, j) == osa(a2, b, i, j),
    decreases i + j,
{
    if i > 0 && j > 0 {
        lemma_osa_prefix(a, a2, b, i - 1, j);
        lemma_osa_prefix(a, a2, b, i, j - 1);
        lemma_osa_prefix(a, a2, b, i - 1, j - 1);
        if i >= 2 && j >= 2 {
            lemma_osa_prefix(a, a2, b, i - 2, j - 2);
        }
    }
}

/// Whether `a` and `b` are within `k` OSA edits.
pub fn osa_within(a: &str, b: &str, k: u8) -> (r: bool)
    ensures
        r == within(a@, b@, k as int),
{
    bytes_within(a.as_bytes(), b.as_bytes(), k)
}

/// Whether `x` and `y` are within `k` OSA edits.
pub(crate) fn bytes_within(x: &[u8], y: &[u8], k: u8) -> (r: bool)
    ensures
        r == (osa_distance(x@, y@) <= k),
{
    proof {
        lemma_osa_len(x@, y@, x@.len() as int, y@.len() as int);
    }
    let apart: usize = if x.len() < y.len() {
        y.len() - x.len()
    } else {
        x.len() - y.len()
    };
    if apart > k as usize {
        return false;
    }
    let aut: Osa = Osa::new(y, k);
    let mut s: OsaState = aut.start();
    let mut i: usize = 0;
    proof {
        assert(x@.take(0) =~= Seq::<u8>::empty());
    }
    while i < x.len()
        invariant
            i <= x@.len(),
            aut.query() == y@,
            aut.max_edits() == k,
            aut.reads(s, x@.take(i as int)),
        decreases x@.len() - i,
    {
        if !aut.can_match(&s) {
            proof {
                let p = x@.take(i as int);
                assert forall|j: int| 0 <= j <= y@.len() implies #[trigger] osa(x@, y@, i as int, j) > k by {
                    lemma_osa_prefix(x@, p, y@, i as int, j);
                    assert(osa(p, y@, p.len() as int, j) > k);
                }
                lemma_osa_past(x@, y@, i as int, x@.len() as int, y@.len() as int, y@.len() as int, k as int);
            }
            return false;
        }
        let c: u8 = x[i];
        let ghost was = s;
        let cur: Vec<u16> = aut.row(&s, c);
        s = OsaState { cur, prev: Some(s.cur), last: c };
        proof {
            aut.lemma_row(was, c, s);
            assert(x@.take(i + 1) =~= x@.take(i as int).push(x@[i as int]));
        }
        i = i + 1;
    }
    proof {
        assert(x@.take(i as int) =~= x@);
    }
    aut.is_match(&s)
}

/// Accepts terms within `k` OSA edits of `query`.
pub struct Osa {
    query: Vec<u8>,
    k: u8,
}

/// Dynamic-programming rows for the term prefix read so far: `cur[j]` is the
/// distance between that prefix and `query[..j]` (capped at k+1), `prev` the
/// row before, `last` the previous term byte (for swaps).
#[derive(Clone, Debug)]
pub struct OsaState {
    cur: Vec<u16>,
    prev: Option<Vec<u16>>,
    last: u8,
}

/// `row[j]` is the distance of `p` and `q[..j]`, at most `cap`.
spec fn is_row(row: Seq<u16>, p: Seq<u8>, q: Seq<u8>, n: int, cap: int) -> bool {
    &&& row.len() == q.len() + 1
    &&& forall|j: int| 0 <= j <= q.len() ==> #[trigger] row[j] == min2(osa(p, q, n, j), cap)
}

impl Osa {
    /// The term that is looked for.
    pub closed spec fn query(&self) -> Seq<u8> {
        self.query@
    }

    /// The most edits that are allowed.
    pub closed spec fn max_edits(&self) -> u8 {
        self.k
    }

    /// The state after reading `p`.
    pub closed spec fn reads(&self, s: OsaState, p: Seq<u8>) -> bool {
        &&& is_row(s.cur@, p, self.query@, p.len() as int, self.k + 1)
        &&& s.prev is Some <==> p.len() > 0
        &&& p.len() > 0 ==> is_row(s.prev->0@, p, self.query@, p.len() - 1, self.k + 1) && s.last == p.last()
    }

    pub fn new(query: &[u8], k: u8) -> (r: Self)
        ensures
            r.query() == query@,
            r.max_edits() == k,
    {
        Osa { query: vstd::slice::slice_to_vec(query), k }
    }

    /// Nothing read yet.
    pub fn start(&self) -> (r: OsaState)
        ensures
            self.reads(r, Seq::empty()),
    {
        let cap: u16 = self.k as u16 + 1;
        let n: usize = self.query.len();
        let mut cur: Vec<u16> = Vec::with_capacity(n);
        while cur.len() <= n
            invariant
                n == self.query@.len(),
                cap == self.k + 1,
                cur@.len() <= n + 1,
                forall|x: int| 0 <= x < cur@.len() ==> #[trigger] cur@[x] == min2(osa(Seq::empty(), self.query@, 0, x), cap as int),
            decreases n + 1 - cur@.len(),
        {
            let j: usize = cur.len();
            let d: u16 = if j < cap as usize {
                j as u16
            } else {
                cap
            };
            cur.push(d);
        }
        OsaState { cur, prev: None, last: 0 }
    }

    /// Whether the term read is within `k` edits.
    pub fn is_match(&self, s: &OsaState) -> (r: bool)
        requires
            exists|p: Seq<u8>| self.reads(*s, p),
        ensures
            forall|p: Seq<u8>| #[trigger] self.reads(*s, p) ==> r == (osa_distance(p, self.query()) <= self.max_edits()),
    {
        let n: usize = self.query.len();
        s.cur[n] <= self.k as u16
    }

    /// Whether some term that starts with what was read may still be within
    /// `k` edits.
    pub fn can_match(&self, s: &OsaState) -> (r: bool)
        requires
            exists|p: Seq<u8>| self.reads(*s, p),
        ensures
            forall|p: Seq<u8>| #[trigger] self.reads(*s, p) ==> r == exists|j: int|
                0 <= j <= self.query().len() && #[trigger] osa(p, self.query(), p.len() as int, j) <= self.max_edits(),
    {
        let mut i: usize = 0;
        while i < s.cur.len()
            invariant
                i <= s.cur@.len(),
                forall|j: int| 0 <= j < i ==> #[trigger] s.cur@[j] > self.k,
            decreases s.cur@.len() - i,
        {
            if s.cur[i] <= self.k as u16 {
                proof {
                    assert forall|p: Seq<u8>| #[trigger] self.reads(*s, p) implies exists|j: int|
                        0 <= j <= self.query().len() && #[trigger] osa(p, self.query(), p.len() as int, j) <= self.max_edits() by {
                        assert(s.cur@[i as int] == min2(osa(p, self.query@, p.len() as int, i as int), self.k + 1));
                        assert(osa(p, self.query(), p.len() as int, i as int) <= self.max_edits());
                    }
                }
                return true;
            }
            i = i + 1;
        }
        proof {
            assert forall|p: Seq<u8>| #[trigger] self.reads(*s, p) implies !exists|j: int|
                0 <= j <= self.query().len() && #[trigger] osa(p, self.query(), p.len() as int, j) <= self.max_edits() by {
                assert forall|j: int| 0 <= j <= self.query().len() implies #[trigger] osa(p, self.query(), p.len() as int, j) > self.max_edits() by {
                    assert(s.cur@[j] == min2(osa(p, self.query@, p.len() as int, j), self.k + 1));
                }
            }
        }
        false
    }

    /// Read one more byte.
    pub fn accept(&self, s: &OsaState, c: u8) -> (r: OsaState)
        requires
            exists|p: Seq<u8>| self.reads(*s, p),
        ensures
            forall|p: Seq<u8>| #[trigger] self.reads(*s, p) ==> self.reads(r, p.push(c)),
    {
        let r: OsaState = OsaState { cur: self.row(s, c), prev: Some(s.cur.clone()), last: c };
        proof {
            assert(r.prev->0@ =~= s.cur@);
            self.lemma_row(*s, c, r);
        }
        r
    }

    /// The row after one more byte.
    fn row(&self, s: &OsaState, c: u8) -> (r: Vec<u16>)
        requires
            exists|p: Seq<u8>| self.reads(*s, p),
        ensures
            forall|p: Seq<u8>| #[trigger] self.reads(*s, p) ==> is_row(r@, p.push(c), self.query@, p.len() as int + 1, self.k + 1),
    {
        let ghost p0 = choose|p: Seq<u8>| self.reads(*s, p);
        let cap: u16 = self.k as u16 + 1;
        let n: usize = self.query.len();
        let cells: usize = s.cur.len();
        let mut next: Vec<u16> = Vec::with_capacity(cells);
        proof {
            assert(s.cur@[0] == min2(osa(p0, self.query@, p0.len() as int, 0), cap as int));
        }
        next.push(if s.cur[0] + 1 < cap {
            s.cur[0] + 1
        } else {
            cap
        });
        let mut j: usize = 1;
        while j <= n
            invariant
                n == self.query@.len(),
                n < cells,
                1 <= j <= n + 1,
                cap == self.k + 1,
                self.reads(*s, p0),
                next@.len() == j,
                forall|x: int| 0 <= x < j ==> #[trigger] next@[x] <= cap,
                forall|p: Seq<u8>, x: int| #![trigger self.reads(*s, p), next@[x]] self.reads(*s, p) && 0 <= x < j ==> next@[x] == min2(osa(p.push(c), self.query@, p.len() as int + 1, x), cap as int),
            decreases n + 1 - j,
        {
            let q: u8 = self.query[j - 1];
            proof {
                assert(s.cur@[j - 1] == min2(osa(p0, self.query@, p0.len() as int, j - 1), cap as int));
                assert(s.cur@[j as int] == min2(osa(p0, self.query@, p0.len() as int, j as int), cap as int));
            }
            let sub: u16 = s.cur[j - 1] + if q != c {
                1
            } else {
                0
            };
            let del: u16 = s.cur[j] + 1;
            assert(next@[j - 1] <= cap);
            let ins: u16 = next[j - 1] + 1;
            let mut d: u16 = if sub < del {
                sub
            } else {
                del
            };
            if ins < d {
                d = ins;
            }
            if let Some(prev) = &s.prev {
                if j >= 2 && c == self.query[j - 2] && s.last == q {
                    proof {
                        assert(prev@[j - 2] == min2(osa(p0, self.query@, p0.len() - 1, j - 2), cap as int));
                    }
                    let swap: u16 = prev[j - 2] + 1;
                    if swap < d {
                        d = swap;
                    }
                }
            }
            let v: u16 = if d < cap {
                d
            } else {
                cap
            };
            let ghost was = next@;
            next.push(v);
            proof {
                assert forall|p: Seq<u8>, x: int| #![trigger self.reads(*s, p), next@[x]] self.reads(*s, p) && 0 <= x < j + 1 implies next@[x] == min2(osa(p.push(c), self.query@, p.len() as int + 1, x), cap as int) by {
                    if x < j {
                        assert(was[x] == next@[x]);
                    } else {
                        self.lemma_cell(*s, p, c, j as int, was[j - 1] as int, v as int);
                    }
                }
            }
            j = j + 1;
        }
        proof {
            assert forall|p: Seq<u8>| #[trigger] self.reads(*s, p) implies is_row(next@, p.push(c), self.query@, p.len() as int + 1, self.k + 1) by {
                assert forall|x: int| 0 <= x <= self.query@.len() implies #[trigger] next@[x] == min2(osa(p.push(c), self.query@, p.len() as int + 1, x), self.k + 1) by {
                }
            }
        }
        next
    }

    /// The state after one more byte.
    proof fn lemma_row(&self, s: OsaState, c: u8, r: OsaState)
        requires
            forall|p: Seq<u8>| #[trigger] self.reads(s, p) ==> is_row(r.cur@, p.push(c), self.query@, p.len() as int + 1, self.k + 1),
            r.prev is Some,
            r.prev->0@ == s.cur@,
            r.last == c,
        ensures
            forall|p: Seq<u8>| #[trigger] self.reads(s, p) ==> self.reads(r, p.push(c)),
    {
        assert forall|p: Seq<u8>| #[trigger] self.reads(s, p) implies self.reads(r, p.push(c)) by {
            let p2 = p.push(c);
            assert(p2.len() - 1 == p.len());
            assert forall|x: int| 0 <= x <= self.query@.len() implies #[trigger] r.prev->0@[x] == min2(osa(p2, self.query@, p.len() as int, x), self.k + 1) by {
                assert(s.cur@[x] == min2(osa(p, self.query@, p.len() as int, x), self.k + 1));
                lemma_osa_prefix(p, p2, self.query@, p.len() as int, x);
            }
        }
    }

    /// One cell of the row after `c` from its neighbours.
    proof fn lemma_cell(&self, s: OsaState, p: Seq<u8>, c: u8, j: int, left: int, v: int)
        requires
            self.reads(s, p),
            1 <= j <= self.query@.len(),
            left == min2(osa(p.push(c), self.query@, p.len() as int + 1, j - 1), self.k + 1),
            v == ({
                let q = self.query@;
                let sub = s.cur@[j - 1] + if q[j - 1] != c { 1int } else { 0int };
                let del = s.cur@[j] + 1;
                let m = min2(min2(sub, del), left + 1);
                let w = if p.len() > 0 && j >= 2 && c == q[j - 2] && s.last == q[j - 1] {
                    min2(m, s.prev->0@[j - 2] + 1)
                } else {
                    m
                };
                min2(w, self.k + 1)
            }),
        ensures
            v == min2(osa(p.push(c), self.query@, p.len() as int + 1, j), self.k + 1),
    {
        let q = self.query@;
        let p2 = p.push(c);
        let n = p.len() as int;
        assert(s.cur@[j - 1] == min2(osa(p, q, n, j - 1), self.k + 1));
        assert(s.cur@[j] == min2(osa(p, q, n, j), self.k + 1));
        lemma_osa_prefix(p, p2, q, n, j - 1);
        lemma_osa_prefix(p, p2, q, n, j);
        if n >= 1 && j >= 2 {
            assert(s.prev->0@[j - 2] == min2(osa(p, q, n - 1, j - 2), self.k + 1));
            lemma_osa_prefix(p, p2, q, n - 1, j - 2);
        }
    }
}

/// A term is no edit away from itself.
pub proof fn distance_to_itself(a: Seq<u8>)
    ensures
        osa_distance(a, a) == 0,
{
    lemma_self(a, a.len() as int);
}

proof fn lemma_self(a: Seq<u8>, n: int)
    requires
        0 <= n <= a.len(),
    ensures
        osa(a, a, n, n) == 0,
    decreases n,
{
    lemma_osa_len(a, a, n, n);
    if n > 0 {
        lemma_self(a, n - 1);
        lemma_osa_len(a, a, n - 1, n);
        lemma_osa_len(a, a, n, n - 1);
    }
}

/// The distance is the same both ways.
pub proof fn distance_is_symmetric(a: Seq<u8>, b: Seq<u8>)
    ensures
        osa_distance(a, b) == osa_distance(b, a),
{
    lemma_symmetric(a, b, a.len() as int, b.len() as int);
}

proof fn lemma_symmetric(a: Seq<u8>, b: Seq<u8>, i: int, j: int)
    ensures
        osa(a, b, i, j) == osa(b, a, j, i),
    decreases i + j,
{
    if i > 0 && j > 0 {
        lemma_symmetric(a, b, i - 1, j);
        lemma_symmetric(a, b, i, j - 1);
        lemma_symmetric(a, b, i - 1, j - 1);
        if i >= 2 && j >= 2 {
            lemma_symmetric(a, b, i - 2, j - 2);
        }
    }
}

/// No distance means no difference.
pub proof fn no_distance_is_equality(a: Seq<u8>, b: Seq<u8>)
    ensures
        osa_distance(a, b) == 0 <==> a == b,
{
    if osa_distance(a, b) == 0 {
        lemma_zero(a, b, a.len() as int, b.len() as int);
        assert(a.take(a.len() as int) =~= a && b.take(b.len() as int) =~= b);
    }
    distance_to_itself(a);
}

proof fn lemma_zero(a: Seq<u8>, b: Seq<u8>, i: int, j: int)
    requires
        0 <= i <= a.len(),
        0 <= j <= b.len(),
        osa(a, b, i, j) <= 0,
    ensures
        i == j,
        a.take(i) == b.take(j),
    decreases i + j,
{
    lemma_osa_len(a, b, i, j);
    if i > 0 && j > 0 {
        lemma_osa_len(a, b, i - 1, j);
        lemma_osa_len(a, b, i, j - 1);
        lemma_osa_len(a, b, i - 1, j - 1);
        if i >= 2 && j >= 2 {
            lemma_osa_len(a, b, i - 2, j - 2);
        }
        assert(a[i - 1] == b[j - 1]);
        lemma_zero(a, b, i - 1, j - 1);
        assert(a.take(i) =~= a.take(i - 1).push(a[i - 1]));
        assert(b.take(j) =~= b.take(j - 1).push(b[j - 1]));
    } else {
        assert(a.take(i) =~= b.take(j));
    }
}

/// `b` is `a` with a byte put in, left out or replaced, or with two neighbours
/// swapped: `pre` and `post` are what both have around that.
pub open spec fn edited_at(a: Seq<u8>, b: Seq<u8>, pre: Seq<u8>, post: Seq<u8>) -> bool {
    ||| exists|x: u8| a == pre + post && b == #[trigger] pre.push(x) + post
    ||| exists|x: u8| a == #[trigger] pre.push(x) + post && b == pre + post
    ||| exists|x: u8, y: u8| a == #[trigger] pre.push(x) + post && b == #[trigger] pre.push(y) + post
    ||| exists|x: u8, y: u8| a == #[trigger] pre.push(x).push(y) + post && b == #[trigger] pre.push(y).push(x) + post
}

/// `b` is `a` after at most one edit.
pub open spec fn one_edit(a: Seq<u8>, b: Seq<u8>) -> bool {
    a == b || exists|pre: Seq<u8>, post: Seq<u8>| #[trigger] edited_at(a, b, pre, post)
}

/// One more byte behind both.
proof fn lemma_edit_more(a: Seq<u8>, b: Seq<u8>, c: u8)
    requires
        one_edit(a, b),
    ensures
        one_edit(a.push(c), b.push(c)),
{
    if a != b {
        let (pre, post) = choose|pre: Seq<u8>, post: Seq<u8>| #[trigger] edited_at(a, b, pre, post);
        let more = post.push(c);
        assert(pre + more =~= (pre + post).push(c));
        if exists|x: u8| a == pre + post && b == #[trigger] pre.push(x) + post {
            let x = choose|x: u8| a == pre + post && b == #[trigger] pre.push(x) + post;
            assert(pre.push(x) + more =~= (pre.push(x) + post).push(c));
        } else if exists|x: u8| a == #[trigger] pre.push(x) + post && b == pre + post {
            let x = choose|x: u8| a == #[trigger] pre.push(x) + post && b == pre + post;
            assert(pre.push(x) + more =~= (pre.push(x) + post).push(c));
        } else if exists|x: u8, y: u8| a == #[trigger] pre.push(x) + post && b == #[trigger] pre.push(y) + post {
            let (x, y) = choose|x: u8, y: u8| a == #[trigger] pre.push(x) + post && b == #[trigger] pre.push(y) + post;
            assert(pre.push(x) + more =~= (pre.push(x) + post).push(c));
            assert(pre.push(y) + more =~= (pre.push(y) + post).push(c));
        } else {
            let (x, y) = choose|x: u8, y: u8| a == #[trigger] pre.push(x).push(y) + post && b == #[trigger] pre.push(y).push(x) + post;
            assert(pre.push(x).push(y) + more =~= (pre.push(x).push(y) + post).push(c));
            assert(pre.push(y).push(x) + more =~= (pre.push(y).push(x) + post).push(c));
        }
        assert(edited_at(a.push(c), b.push(c), pre, more));
    }
}

proof fn lemma_one(a: Seq<u8>, b: Seq<u8>, i: int, j: int)
    requires
        0 <= i <= a.len(),
        0 <= j <= b.len(),
        osa(a, b, i, j) <= 1,
    ensures
        one_edit(a.take(i), b.take(j)),
    decreases i + j,
{
    let none = Seq::<u8>::empty();
    let (p, q) = (a.take(i), b.take(j));
    if i <= 0 {
        if j <= 0 {
            assert(p =~= q);
        } else {
            assert(p =~= none + none);
            assert(q =~= none.push(b[0]) + none);
            assert(edited_at(p, q, none, none));
        }
    } else if j <= 0 {
        assert(q =~= none + none);
        assert(p =~= none.push(a[0]) + none);
        assert(edited_at(p, q, none, none));
    } else {
        let (x, y) = (a[i - 1], b[j - 1]);
        assert(p =~= a.take(i - 1).push(x));
        assert(q =~= b.take(j - 1).push(y));
        lemma_osa_len(a, b, i - 1, j);
        lemma_osa_len(a, b, i, j - 1);
        lemma_osa_len(a, b, i - 1, j - 1);
        if i >= 2 && j >= 2 {
            lemma_osa_len(a, b, i - 2, j - 2);
        }
        if x == y && osa(a, b, i - 1, j - 1) <= 1 {
            lemma_one(a, b, i - 1, j - 1);
            lemma_edit_more(a.take(i - 1), b.take(j - 1), x);
        } else if osa(a, b, i - 1, j - 1) <= 0 {
            lemma_zero(a, b, i - 1, j - 1);
            let pre = a.take(i - 1);
            assert(p =~= pre.push(x) + none);
            assert(q =~= pre.push(y) + none);
            assert(edited_at(p, q, pre, none));
        } else if osa(a, b, i - 1, j) <= 0 {
            lemma_zero(a, b, i - 1, j);
            let pre = a.take(i - 1);
            assert(p =~= pre.push(x) + none);
            assert(q =~= pre + none);
            assert(edited_at(p, q, pre, none));
        } else if osa(a, b, i, j - 1) <= 0 {
            lemma_zero(a, b, i, j - 1);
            let pre = a.take(i);
            assert(p =~= pre + none);
            assert(q =~= pre.push(y) + none);
            assert(edited_at(p, q, pre, none));
        } else {
            assert(i >= 2 && j >= 2 && a[i - 1] == b[j - 2] && a[i - 2] == b[j - 1] && osa(a, b, i - 2, j - 2) <= 0);
            lemma_zero(a, b, i - 2, j - 2);
            let pre = a.take(i - 2);
            assert(p =~= pre.push(y).push(x) + none);
            assert(q =~= pre.push(x).push(y) + none);
            assert(edited_at(p, q, pre, none));
        }
    }
}

/// What both have behind costs nothing.
proof fn lemma_same_tail(a: Seq<u8>, b: Seq<u8>, i: int, j: int, n: int)
    requires
        0 <= i,
        0 <= j,
        0 <= n,
        i + n <= a.len(),
        j + n <= b.len(),
        forall|k: int| #![trigger a[i + k]] 0 <= k < n ==> a[i + k] == b[j + k],
    ensures
        osa(a, b, i + n, j + n) <= osa(a, b, i, j),
    decreases n,
{
    if n > 0 {
        lemma_same_tail(a, b, i, j, n - 1);
        assert(a[i + (n - 1)] == b[j + (n - 1)]);
    }
}

proof fn lemma_same_head(a: Seq<u8>, b: Seq<u8>, n: int)
    requires
        0 <= n <= a.len(),
        n <= b.len(),
        forall|k: int| 0 <= k < n ==> a[k] == b[k],
    ensures
        osa(a, b, n, n) == 0,
{
    lemma_same_tail(a, b, 0, 0, n);
    lemma_osa_len(a, b, n, n);
}

/// Terms are within one edit exactly if one is the other, or the other with a
/// byte put in, left out or replaced, or with two neighbours swapped.
pub proof fn one_edit_is_distance_one(a: Seq<u8>, b: Seq<u8>)
    ensures
        osa_distance(a, b) <= 1 <==> one_edit(a, b),
{
    if osa_distance(a, b) <= 1 {
        lemma_one(a, b, a.len() as int, b.len() as int);
        assert(a.take(a.len() as int) =~= a && b.take(b.len() as int) =~= b);
    }
    if one_edit(a, b) {
        if a == b {
            distance_to_itself(a);
        } else {
            let (pre, post) = choose|pre: Seq<u8>, post: Seq<u8>| #[trigger] edited_at(a, b, pre, post);
            let (n, m) = (pre.len() as int, post.len() as int);
            lemma_same_head(a, b, n);
            if exists|x: u8| a == pre + post && b == #[trigger] pre.push(x) + post {
                assert(osa(a, b, n, n + 1) <= 1);
                lemma_same_tail(a, b, n, n + 1, m);
            } else if exists|x: u8| a == #[trigger] pre.push(x) + post && b == pre + post {
                assert(osa(a, b, n + 1, n) <= 1);
                lemma_same_tail(a, b, n + 1, n, m);
            } else if exists|x: u8, y: u8| a == #[trigger] pre.push(x) + post && b == #[trigger] pre.push(y) + post {
                assert(osa(a, b, n + 1, n + 1) <= 1);
                lemma_same_tail(a, b, n + 1, n + 1, m);
            } else {
                assert(osa(a, b, n + 2, n + 2) <= 1);
                lemma_same_tail(a, b, n + 2, n + 2, m);
            }
        }
    }
}

/// Two edits that stand apart are two edits: what one edit makes of a term, and
/// another of a part behind it, is within both.
pub proof fn edits_add_up(a: Seq<u8>, b: Seq<u8>, c: Seq<u8>, d: Seq<u8>)
    ensures
        osa_distance(a + c, b + d) <= osa_distance(a, b) + osa_distance(c, d),
{
    lemma_apart(a, b, c, d, c.len() as int, d.len() as int);
    assert((a + c).len() == a.len() + c.len() && (b + d).len() == b.len() + d.len());
}

proof fn lemma_apart(a: Seq<u8>, b: Seq<u8>, c: Seq<u8>, d: Seq<u8>, i: int, j: int)
    requires
        0 <= i <= c.len(),
        0 <= j <= d.len(),
    ensures
        osa(a + c, b + d, a.len() + i, b.len() + j) <= osa(a, b, a.len() as int, b.len() as int) + osa(c, d, i, j),
    decreases i + j,
{
    let (x, y) = (a + c, b + d);
    let (n, m) = (a.len() as int, b.len() as int);
    if i <= 0 && j <= 0 {
        lemma_osa_prefix(a, x, b, n, m);
        lemma_osa_suffix(x, b, y, n, m);
    } else if i <= 0 {
        lemma_apart(a, b, c, d, i, j - 1);
        assert(osa(x, y, n, m + j) <= osa(x, y, n, m + (j - 1)) + 1);
    } else if j <= 0 {
        lemma_apart(a, b, c, d, i - 1, j);
        assert(osa(x, y, n + i, m) <= osa(x, y, n + (i - 1), m) + 1);
    } else {
        lemma_apart(a, b, c, d, i - 1, j);
        lemma_apart(a, b, c, d, i, j - 1);
        lemma_apart(a, b, c, d, i - 1, j - 1);
        if i >= 2 && j >= 2 {
            lemma_apart(a, b, c, d, i - 2, j - 2);
            assert(x[n + i - 2] == c[i - 2] && y[m + j - 2] == d[j - 2]);
        }
        assert(x[n + i - 1] == c[i - 1] && y[m + j - 1] == d[j - 1]);
    }
}

proof fn lemma_osa_suffix(a: Seq<u8>, b: Seq<u8>, b2: Seq<u8>, i: int, j: int)
    requires
        0 <= j <= b.len(),
        j <= b2.len(),
        forall|x: int| 0 <= x < j ==> b[x] == b2[x],
    ensures
        osa(a, b, i, j) == osa(a, b2, i, j),
    decreases i + j,
{
    if i > 0 && j > 0 {
        lemma_osa_suffix(a, b, b2, i - 1, j);
        lemma_osa_suffix(a, b, b2, i, j - 1);
        lemma_osa_suffix(a, b, b2, i - 1, j - 1);
        if i >= 2 && j >= 2 {
            lemma_osa_suffix(a, b, b2, i - 2, j - 2);
        }
    }
}

/// A term's grams are its stretches of three characters behind the mark, each
/// once.
pub proof fn grams_are_stretches(t: Seq<char>, g: Seq<char>)
    ensures
        grams_of(t).no_duplicates(),
        grams_of(t).contains(g) <==> exists|i: int| 0 <= i <= t.len() - 3 && g == seq!['\u{1}'] + #[trigger] t.subrange(i, i + 3),
{
    lemma_grams_upto_law(t, t.len() - 2, g);
}

proof fn lemma_grams_upto_law(t: Seq<char>, n: int, g: Seq<char>)
    requires
        n <= t.len() - 2,
    ensures
        grams_upto(t, n).no_duplicates(),
        grams_upto(t, n).contains(g) <==> exists|i: int| 0 <= i < n && g == seq!['\u{1}'] + #[trigger] t.subrange(i, i + 3),
    decreases n,
{
    if n > 0 {
        lemma_grams_upto_law(t, n - 1, g);
        let (all, less) = (grams_upto(t, n), grams_upto(t, n - 1));
        let last = gram_at(t, n - 1);
        assert(last =~= seq!['\u{1}'] + t.subrange(n - 1, n + 2));
        if !less.contains(last) {
            assert(all[less.len() as int] == last);
            if less.contains(g) {
                let k = less.index_of(g);
                assert(all[k] == g);
            }
            if all.contains(g) && g != last {
                let k = all.index_of(g);
                assert(less[k] == g);
            }
        }
        if exists|i: int| 0 <= i < n - 1 && g == seq!['\u{1}'] + #[trigger] t.subrange(i, i + 3) {
            let i = choose|i: int| 0 <= i < n - 1 && g == seq!['\u{1}'] + #[trigger] t.subrange(i, i + 3);
            assert(0 <= i < n && g == seq!['\u{1}'] + t.subrange(i, i + 3));
        }
        if exists|i: int| 0 <= i < n && g == seq!['\u{1}'] + #[trigger] t.subrange(i, i + 3) {
            let i = choose|i: int| 0 <= i < n && g == seq!['\u{1}'] + #[trigger] t.subrange(i, i + 3);
            if i < n - 1 {
                assert(less.contains(g));
            } else {
                assert(g == last);
                if less.contains(last) {
                    assert(all == less);
                }
            }
        }
        if g == last {
            let i = n - 1;
            assert(0 <= i < n && g == seq!['\u{1}'] + t.subrange(i, i + 3));
        }
    }
}

/// A wide gram is the mark and four characters of the term, the last of which
/// is the end's sign where the term ends.
pub proof fn wide_grams_are_stretches(t: Seq<char>, g: Seq<char>)
    ensures
        wide_grams_of(t).contains(g) <==> exists|i: int| 0 <= i <= t.len() - 3 && g == seq!['\u{1}'] + #[trigger] t.push('\u{2}').subrange(i, i + 4),
{
    let e = t.push('\u{2}');
    assert forall|i: int| 0 <= i <= t.len() - 3 implies #[trigger] wide_gram_at(t, i) == seq!['\u{1}'] + e.subrange(i, i + 4) by {
        assert(wide_gram_at(t, i) =~= seq!['\u{1}'] + e.subrange(i, i + 4));
    }
    if wide_grams_of(t).contains(g) {
        let i = choose|i: int| 0 <= i <= t.len() - 3 && #[trigger] wide_gram_at(t, i) == g;
        assert(g == seq!['\u{1}'] + e.subrange(i, i + 4));
    }
    if exists|i: int| 0 <= i <= t.len() - 3 && g == seq!['\u{1}'] + #[trigger] e.subrange(i, i + 4) {
        let i = choose|i: int| 0 <= i <= t.len() - 3 && g == seq!['\u{1}'] + #[trigger] e.subrange(i, i + 4);
        assert(wide_gram_at(t, i) == g);
    }
}

} // verus!
