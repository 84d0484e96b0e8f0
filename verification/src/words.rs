//! Bitmaps held in 64-bit words: bit `i` of a sequence of words is bit
//! `i % 64` of word `i / 64`.

use vstd::prelude::*;
use vstd::std_specs::bits::{u64_leading_zeros, u64_trailing_zeros};

verus! {

broadcast use {
    vstd::std_specs::bits::axiom_u64_trailing_zeros,
    vstd::std_specs::bits::axiom_u64_leading_zeros,
};

/// Bit `i` of one word.
pub open spec fn word_bit(w: u64, i: int) -> bool {
    (w >> (i as u64)) & 1u64 == 1u64
}

/// Bit `i` of a word sequence; bits past the end are clear.
pub open spec fn bit(s: Seq<u64>, i: int) -> bool {
    0 <= i < s.len() * 64 && word_bit(s[i / 64], i % 64)
}

/// The set bits below `n`, ascending.
pub open spec fn ones_below(s: Seq<u64>, n: int) -> Seq<int>
    decreases n,
{
    if n <= 0 {
        Seq::empty()
    } else if bit(s, n - 1) {
        ones_below(s, n - 1).push(n - 1)
    } else {
        ones_below(s, n - 1)
    }
}

/// Every set bit, ascending.
pub open spec fn ones_of(s: Seq<u64>) -> Seq<int> {
    ones_below(s, s.len() as int * 64)
}

/// Strictly increasing.
pub open spec fn ascending(s: Seq<int>) -> bool {
    forall|i: int, j: int| 0 <= i < j < s.len() ==> s[i] < s[j]
}

pub proof fn lemma_ones_below(s: Seq<u64>, n: int)
    ensures
        ascending(ones_below(s, n)),
        forall|x: int| #[trigger] ones_below(s, n).contains(x) <==> 0 <= x < n && bit(s, x),
    decreases n,
{
    if n > 0 {
        lemma_ones_below(s, n - 1);
        let p = ones_below(s, n - 1);
        let q = ones_below(s, n);
        assert forall|i: int| 0 <= i < p.len() implies 0 <= #[trigger] p[i] < n - 1 by {
            assert(p.contains(p[i]));
        }
        assert forall|x: int| #[trigger] q.contains(x) <==> 0 <= x < n && bit(s, x) by {
            if q.contains(x) {
                let i = q.index_of(x);
                if i < p.len() {
                    assert(p[i] == x);
                    assert(p.contains(x));
                }
            }
            if 0 <= x < n && bit(s, x) {
                if x == n - 1 {
                    assert(q[q.len() - 1] == x);
                } else {
                    assert(p.contains(x));
                    let i = p.index_of(x);
                    assert(q[i] == x);
                }
            }
        }
    }
}

/// Two strictly increasing sequences with the same members are equal.
pub proof fn lemma_ascending_unique(a: Seq<int>, b: Seq<int>)
    requires
        ascending(a),
        ascending(b),
        forall|x: int| a.contains(x) <==> b.contains(x),
    ensures
        a == b,
    decreases a.len(),
{
    if a.len() == 0 {
        if b.len() > 0 {
            assert(b.contains(b[0]));
        }
        assert(a =~= b);
    } else {
        assert(a.contains(a.last()));
        assert(b.len() > 0);
        assert(b.contains(b.last()));
        let i = b.index_of(a.last());
        let j = a.index_of(b.last());
        assert(a.last() <= b.last());
        assert(b.last() <= a.last());
        let (a2, b2) = (a.drop_last(), b.drop_last());
        assert forall|x: int| a2.contains(x) <==> b2.contains(x) by {
            if a2.contains(x) {
                let k = a2.index_of(x);
                assert(a[k] == x);
                assert(a.contains(x));
                let m = b.index_of(x);
                assert(b2[m] == x);
            }
            if b2.contains(x) {
                let k = b2.index_of(x);
                assert(b[k] == x);
                assert(b.contains(x));
                let m = a.index_of(x);
                assert(a2[m] == x);
            }
        }
        lemma_ascending_unique(a2, b2);
        assert(a =~= a2.push(a.last()));
        assert(b =~= b2.push(b.last()));
    }
}

// ---------------------------------------------------------------------------
// One word
// ---------------------------------------------------------------------------

pub proof fn lemma_word_ops(a: u64, b: u64)
    ensures
        forall|j: int| 0 <= j < 64 ==> #[trigger] word_bit(a | b, j) == (word_bit(a, j) || word_bit(b, j)),
        forall|j: int| 0 <= j < 64 ==> #[trigger] word_bit(a & b, j) == (word_bit(a, j) && word_bit(b, j)),
        forall|j: int| 0 <= j < 64 ==> #[trigger] word_bit(!a, j) == !word_bit(a, j),
        forall|j: int| 0 <= j < 64 ==> #[trigger] word_bit(a & !b, j) == (word_bit(a, j) && !word_bit(b, j)),
        forall|j: int| 0 <= j < 64 ==> !#[trigger] word_bit(0, j),
{
    assert forall|j: int|
        #![trigger word_bit(a | b, j)]
        #![trigger word_bit(a & b, j)]
        #![trigger word_bit(!a, j)]
        #![trigger word_bit(a & !b, j)]
        #![trigger word_bit(0, j)]
        0 <= j < 64 implies {
        &&& word_bit(a | b, j) == (word_bit(a, j) || word_bit(b, j))
        &&& word_bit(a & b, j) == (word_bit(a, j) && word_bit(b, j))
        &&& word_bit(!a, j) == !word_bit(a, j)
        &&& word_bit(a & !b, j) == (word_bit(a, j) && !word_bit(b, j))
        &&& !word_bit(0, j)
    } by {
        let k = j as u64;
        assert(k < 64 ==> {
            &&& (((a | b) >> k) & 1 == 1 <==> ((a >> k) & 1 == 1 || (b >> k) & 1 == 1))
            &&& (((a & b) >> k) & 1 == 1 <==> ((a >> k) & 1 == 1 && (b >> k) & 1 == 1))
            &&& (((!a) >> k) & 1 == 1 <==> !((a >> k) & 1 == 1))
            &&& (((a & !b) >> k) & 1 == 1 <==> ((a >> k) & 1 == 1 && !((b >> k) & 1 == 1)))
            &&& !((0u64 >> k) & 1 == 1)
        }) by (bit_vector);
    }
}

pub proof fn lemma_word_shift(a: u64, s: u64)
    requires
        s < 64,
    ensures
        forall|j: int| 0 <= j < 64 ==> #[trigger] word_bit(a << s, j) == (j >= s && word_bit(a, j - s)),
        forall|j: int| 0 <= j < 64 ==> #[trigger] word_bit(a >> s, j) == (j + s < 64 && word_bit(a, j + s)),
        forall|j: int| 0 <= j < 64 ==> #[trigger] word_bit(1u64 << s, j) == (j == s),
        forall|j: int| 0 <= j < 64 ==> #[trigger] word_bit(!0u64 << s, j) == (j >= s),
        1u64 << s >= 1,
        forall|j: int| 0 <= j < 64 ==> #[trigger] word_bit(((1u64 << s) - 1) as u64, j) == (j < s),
{
    assert(s < 64 ==> 1u64 << s >= 1) by (bit_vector);
    assert forall|j: int|
        #![trigger word_bit(a << s, j)]
        #![trigger word_bit(a >> s, j)]
        #![trigger word_bit(1u64 << s, j)]
        #![trigger word_bit(!0u64 << s, j)]
        #![trigger word_bit(((1u64 << s) - 1) as u64, j)]
        0 <= j < 64 implies {
        &&& word_bit(a << s, j) == (j >= s && word_bit(a, j - s))
        &&& word_bit(a >> s, j) == (j + s < 64 && word_bit(a, j + s))
        &&& word_bit(1u64 << s, j) == (j == s)
        &&& word_bit(!0u64 << s, j) == (j >= s)
        &&& word_bit(((1u64 << s) - 1) as u64, j) == (j < s)
    } by {
        let k = j as u64;
        assert(s < 64 && k < 64 ==> {
            &&& (((a << s) >> k) & 1 == 1 <==> (k >= s && (a >> ((k - s) as u64)) & 1 == 1))
            &&& (((a >> s) >> k) & 1 == 1 <==> (k + s < 64 && (a >> ((k + s) as u64)) & 1 == 1))
            &&& (((1u64 << s) >> k) & 1 == 1 <==> k == s)
            &&& (((!0u64 << s) >> k) & 1 == 1 <==> k >= s)
            &&& (((((1u64 << s) - 1) as u64) >> k) & 1 == 1 <==> k < s)
        }) by (bit_vector);
    }
}

/// A word with no set bit is zero, and the other way round.
pub proof fn lemma_word_zero(w: u64)
    ensures
        w == 0 <==> forall|j: int| 0 <= j < 64 ==> !#[trigger] word_bit(w, j),
{
    lemma_word_ops(w, w);
    if w != 0 {
        assert(word_bit(w, u64_trailing_zeros(w) as int));
    }
}

pub proof fn lemma_trailing_zeros(w: u64)
    requires
        w != 0,
    ensures
        0 <= u64_trailing_zeros(w) < 64,
        word_bit(w, u64_trailing_zeros(w) as int),
        forall|j: int| 0 <= j < u64_trailing_zeros(w) ==> !#[trigger] word_bit(w, j),
{
    assert forall|j: int| 0 <= j < u64_trailing_zeros(w) implies !#[trigger] word_bit(w, j) by {
        assert((w >> (j as u64)) & 1u64 == 0u64);
    }
}

pub proof fn lemma_leading_zeros(w: u64)
    requires
        w != 0,
    ensures
        0 <= u64_leading_zeros(w) < 64,
        word_bit(w, 63 - u64_leading_zeros(w)),
        forall|j: int| 63 - u64_leading_zeros(w) < j < 64 ==> !#[trigger] word_bit(w, j),
{
    let k = (63 - u64_leading_zeros(w)) as u64;
    assert((w >> k) & 1u64 != 0 ==> (w >> k) & 1u64 == 1) by (bit_vector);
    assert forall|j: int| 63 - u64_leading_zeros(w) < j < 64 implies !#[trigger] word_bit(w, j) by {
        assert((w >> (j as u64)) & 1u64 == 0u64);
    }
}

// ---------------------------------------------------------------------------
// Word sequences
// ---------------------------------------------------------------------------

pub fn get_bit(s: &[u64], i: usize) -> (r: bool)
    requires
        i < s@.len() * 64,
    ensures
        r == bit(s@, i as int),
{
    (s[i / 64] >> ((i % 64) as u64)) & 1u64 == 1u64
}

/// The word `w` with bit `i` set.
pub fn with_bit(w: u64, i: usize) -> (r: u64)
    requires
        i < 64,
    ensures
        forall|j: int| 0 <= j < 64 ==> #[trigger] word_bit(r, j) == (word_bit(w, j) || j == i),
{
    proof {
        lemma_word_shift(0, i as u64);
        lemma_word_ops(w, 1u64 << (i as u64));
    }
    w | (1u64 << (i as u64))
}

pub fn set_bit(s: &mut Vec<u64>, i: usize)
    requires
        i < old(s)@.len() * 64,
    ensures
        final(s)@.len() == old(s)@.len(),
        forall|x: int| #[trigger] bit(final(s)@, x) == (bit(old(s)@, x) || x == i),
{
    let w: u64 = with_bit(s[i / 64], i % 64);
    s.set(i / 64, w);
    proof {
        let (o, n) = (old(s)@, s@);
        assert forall|x: int| #[trigger] bit(n, x) == (bit(o, x) || x == i) by {
            if 0 <= x < o.len() * 64 {
                assert(x == (x / 64) * 64 + x % 64);
                assert(word_bit(n[x / 64], x % 64) == (word_bit(o[x / 64], x % 64) || x == i));
            }
        }
    }
}

/// The word `w` with bit `i` cleared.
pub fn without_bit(w: u64, i: usize) -> (r: u64)
    requires
        i < 64,
    ensures
        forall|j: int| 0 <= j < 64 ==> #[trigger] word_bit(r, j) == (word_bit(w, j) && j != i),
{
    proof {
        lemma_word_shift(0, i as u64);
        lemma_word_ops(w, 1u64 << (i as u64));
    }
    w & !(1u64 << (i as u64))
}

pub fn clear_bit(s: &mut Vec<u64>, i: usize)
    requires
        i < old(s)@.len() * 64,
    ensures
        final(s)@.len() == old(s)@.len(),
        forall|x: int| #[trigger] bit(final(s)@, x) == (bit(old(s)@, x) && x != i),
{
    let w: u64 = without_bit(s[i / 64], i % 64);
    s.set(i / 64, w);
    proof {
        let (o, n) = (old(s)@, s@);
        assert forall|x: int| #[trigger] bit(n, x) == (bit(o, x) && x != i) by {
            if 0 <= x < o.len() * 64 {
                assert(x == (x / 64) * 64 + x % 64);
                assert(word_bit(n[x / 64], x % 64) == (word_bit(o[x / 64], x % 64) && x != i));
            }
        }
    }
}

/// The first set bit at or after `from`; the bit length if there is none.
pub fn next_one(s: &[u64], from: usize) -> (r: usize)
    requires
        s@.len() * 64 <= usize::MAX,
        from <= s@.len() * 64,
    ensures
        from <= r <= s@.len() * 64,
        r < s@.len() * 64 ==> bit(s@, r as int),
        forall|x: int| from <= x < r ==> !#[trigger] bit(s@, x),
{
    if from == s.len() * 64 {
        return from;
    }
    let mut k: usize = from / 64;
    let mut w: u64 = s[k] & (!0u64 << ((from % 64) as u64));
    proof {
        lemma_word_shift(0, (from % 64) as u64);
        lemma_word_ops(s@[k as int], !0u64 << ((from % 64) as u64));
    }
    while w == 0
        invariant
            s@.len() * 64 <= usize::MAX,
            from / 64 <= k < s@.len(),
            forall|x: int| from <= x < k * 64 ==> !#[trigger] bit(s@, x),
            forall|j: int| 0 <= j < 64 ==> #[trigger] word_bit(w, j) == (k * 64 + j >= from && word_bit(s@[k as int], j)),
        decreases s@.len() - k,
    {
        proof {
            lemma_word_zero(w);
            assert forall|x: int| from <= x < (k + 1) * 64 implies !#[trigger] bit(s@, x) by {
                if x >= k * 64 {
                    assert(x / 64 == k);
                    assert(!word_bit(w, x % 64));
                }
            }
        }
        k = k + 1;
        if k == s.len() {
            return k * 64;
        }
        w = s[k];
    }
    proof {
        lemma_trailing_zeros(w);
    }
    let t: usize = w.trailing_zeros() as usize;
    proof {
        assert(word_bit(w, t as int));
        let r = k * 64 + t;
        assert(r / 64 == k && r % 64 == t);
        assert forall|x: int| from <= x < r implies !#[trigger] bit(s@, x) by {
            if x >= k * 64 {
                assert(x / 64 == k);
                assert(!word_bit(w, x % 64));
            }
        }
    }
    k * 64 + t
}

/// The first clear bit at or after `from`; the bit length if there is none.
pub fn next_zero(s: &[u64], from: usize) -> (r: usize)
    requires
        s@.len() * 64 <= usize::MAX,
        from <= s@.len() * 64,
    ensures
        from <= r <= s@.len() * 64,
        r < s@.len() * 64 ==> !bit(s@, r as int),
        forall|x: int| from <= x < r ==> #[trigger] bit(s@, x),
{
    if from == s.len() * 64 {
        return from;
    }
    let mut k: usize = from / 64;
    let mut w: u64 = !s[k] & (!0u64 << ((from % 64) as u64));
    proof {
        lemma_word_shift(0, (from % 64) as u64);
        lemma_word_ops(s@[k as int], 0);
        lemma_word_ops(!s@[k as int], !0u64 << ((from % 64) as u64));
    }
    while w == 0
        invariant
            s@.len() * 64 <= usize::MAX,
            from / 64 <= k < s@.len(),
            forall|x: int| from <= x < k * 64 ==> #[trigger] bit(s@, x),
            forall|j: int| 0 <= j < 64 ==> #[trigger] word_bit(w, j) == (k * 64 + j >= from && !word_bit(s@[k as int], j)),
        decreases s@.len() - k,
    {
        proof {
            lemma_word_zero(w);
            assert forall|x: int| from <= x < (k + 1) * 64 implies #[trigger] bit(s@, x) by {
                if x >= k * 64 {
                    assert(x / 64 == k);
                    assert(!word_bit(w, x % 64));
                }
            }
        }
        k = k + 1;
        if k == s.len() {
            return k * 64;
        }
        proof {
            lemma_word_ops(s@[k as int], 0);
        }
        w = !s[k];
    }
    proof {
        lemma_trailing_zeros(w);
    }
    let t: usize = w.trailing_zeros() as usize;
    proof {
        assert(word_bit(w, t as int));
        let r = k * 64 + t;
        assert(r / 64 == k && r % 64 == t);
        assert forall|x: int| from <= x < r implies #[trigger] bit(s@, x) by {
            if x >= k * 64 {
                assert(x / 64 == k);
                assert(!word_bit(w, x % 64));
            }
        }
    }
    k * 64 + t
}

/// The last set bit.
pub fn last_one(s: &[u64]) -> (r: Option<usize>)
    requires
        s@.len() * 64 <= usize::MAX,
    ensures
        match r {
            Some(b) => bit(s@, b as int) && forall|x: int| b < x ==> !#[trigger] bit(s@, x),
            None => forall|x: int| !#[trigger] bit(s@, x),
        },
{
    let mut k: usize = s.len();
    while k > 0
        invariant
            k <= s@.len(),
            s@.len() * 64 <= usize::MAX,
            forall|x: int| k * 64 <= x ==> !#[trigger] bit(s@, x),
        decreases k,
    {
        k = k - 1;
        let w: u64 = s[k];
        if w != 0 {
            proof {
                lemma_leading_zeros(w);
            }
            let t: usize = 63 - w.leading_zeros() as usize;
            let r: usize = k * 64 + t;
            proof {
                assert(r / 64 == k && r % 64 == t);
                assert forall|x: int| r < x implies !#[trigger] bit(s@, x) by {
                    if x < (k + 1) * 64 {
                        assert(x / 64 == k);
                        assert(!word_bit(w, x % 64));
                    }
                }
            }
            return Some(r);
        }
        proof {
            lemma_word_zero(w);
            assert forall|x: int| k * 64 <= x implies !#[trigger] bit(s@, x) by {
                if x < (k + 1) * 64 {
                    assert(x / 64 == k);
                    assert(!word_bit(w, x % 64));
                }
            }
        }
    }
    None
}

/// Every set bit, ascending.
pub fn ones(s: &[u64]) -> (r: Vec<usize>)
    requires
        s@.len() * 64 <= usize::MAX,
    ensures
        r@.map_values(|x: usize| x as int) == ones_of(s@),
{
    let n: usize = s.len() * 64;
    let mut out: Vec<usize> = Vec::new();
    let mut at: usize = next_one(s, 0);
    proof {
        lemma_no_ones(s@, 0, at as int);
        assert(out@.map_values(|x: usize| x as int) =~= Seq::<int>::empty());
    }
    while at < n
        invariant
            s@.len() * 64 <= usize::MAX,
            n == s@.len() * 64,
            at <= n,
            at < n ==> bit(s@, at as int),
            out@.map_values(|x: usize| x as int) == ones_below(s@, at as int),
        decreases n - at,
    {
        let ghost before = out@.map_values(|x: usize| x as int);
        out.push(at);
        proof {
            assert(out@.map_values(|x: usize| x as int) =~= before.push(at as int));
        }
        let next: usize = next_one(s, at + 1);
        proof {
            lemma_no_ones(s@, at as int + 1, next as int);
        }
        at = next;
    }
    out
}

/// A stretch without set bits adds nothing to the list of set bits.
pub proof fn lemma_no_ones(s: Seq<u64>, a: int, b: int)
    requires
        0 <= a <= b,
        forall|x: int| a <= x < b ==> !#[trigger] bit(s, x),
    ensures
        ones_below(s, b) == ones_below(s, a),
    decreases b - a,
{
    if a < b {
        assert(!bit(s, b - 1));
        lemma_no_ones(s, a, b - 1);
    }
}

/// How many bits of a word are set.
pub fn count_word(w: u64) -> (r: u64)
    ensures
        r == ones_of(seq![w]).len(),
        r <= 64,
{
    let mut n: u64 = 0;
    let mut j: u64 = 0;
    while j < 64
        invariant
            j <= 64,
            n <= j,
            n == ones_below(seq![w], j as int).len(),
        decreases 64 - j,
    {
        if (w >> j) & 1u64 == 1u64 {
            n = n + 1;
        }
        proof {
            assert(seq![w][j as int / 64] == w);
        }
        j = j + 1;
    }
    n
}

/// The set bits of a longer sequence are those of the shorter one and those
/// of the word that was added.
pub proof fn lemma_count_push(s: Seq<u64>, w: u64)
    ensures
        ones_of(s.push(w)).len() == ones_of(s).len() + ones_of(seq![w]).len(),
{
    lemma_count_push_below(s, w, 64);
}

proof fn lemma_count_push_below(s: Seq<u64>, w: u64, n: int)
    requires
        0 <= n <= 64,
    ensures
        ones_below(s.push(w), s.len() * 64 + n).len() == ones_of(s).len() + ones_below(seq![w], n).len(),
    decreases n,
{
    let m = s.len() * 64;
    if n > 0 {
        lemma_count_push_below(s, w, n - 1);
        assert((m + n - 1) / 64 == s.len() && (m + n - 1) % 64 == n - 1);
        assert((n - 1) / 64 == 0 && (n - 1) % 64 == n - 1);
    } else {
        lemma_same_below(s.push(w), s, m as int);
    }
}

/// Sequences with the same bits below `n` list the same set bits there.
pub proof fn lemma_same_below(a: Seq<u64>, b: Seq<u64>, n: int)
    requires
        forall|x: int| 0 <= x < n ==> bit(a, x) == bit(b, x),
    ensures
        ones_below(a, n) == ones_below(b, n),
    decreases n,
{
    if n > 0 {
        lemma_same_below(a, b, n - 1);
    }
}

/// How many bits are set.
pub fn count(s: &[u64]) -> (r: u64)
    requires
        s@.len() * 64 <= usize::MAX,
    ensures
        r == ones_of(s@).len(),
        r <= s@.len() * 64,
{
    let mut n: u64 = 0;
    let mut i: usize = 0;
    while i < s.len()
        invariant
            i <= s@.len(),
            s@.len() * 64 <= usize::MAX,
            n == ones_of(s@.take(i as int)).len(),
            n <= i * 64,
        decreases s@.len() - i,
    {
        proof {
            lemma_count_push(s@.take(i as int), s@[i as int]);
            assert(s@.take(i as int).push(s@[i as int]) =~= s@.take(i as int + 1));
        }
        n = n + count_word(s[i]);
        i = i + 1;
    }
    proof {
        assert(s@.take(i as int) =~= s@);
    }
    n
}

} // verus!
