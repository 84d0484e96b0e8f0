//! The minimal windows of conjunctions, thresholds and phrases.

use vstd::prelude::*;
use crate::interval::{
    first_from, in_order, lemma_same_minimal, lemma_spans_push, lists_minimal, minimize, span_view, spans_of, within, Span,
};

verus! {

// ---------------------------------------------------------------------------
// At least k of several lists
// ---------------------------------------------------------------------------

/// A list has an interval inside the window.
pub open spec fn reaches(s: Set<(int, int)>, x: (int, int)) -> bool {
    exists|y: (int, int)| #[trigger] s.contains(y) && within(x, y)
}

/// How many of the first `n` lists have an interval inside the window, list
/// `skip` left out.
pub open spec fn count_in(ls: Seq<Set<(int, int)>>, n: int, x: (int, int), skip: int) -> int
    decreases n,
{
    if n <= 0 {
        0
    } else {
        count_in(ls, n - 1, x, skip) + if n - 1 != skip && reaches(ls[n - 1], x) {
            1int
        } else {
            0int
        }
    }
}

/// The windows that hold an interval of at least `k` of the lists.
pub open spec fn cover_windows(ls: Seq<Set<(int, int)>>, k: int) -> Set<(int, int)> {
    Set::new(|x: (int, int)| 1 <= k && 0 <= x.0 <= x.1 && count_in(ls, ls.len() as int, x, -1) >= k)
}

/// The sets of the lists.
pub open spec fn list_sets(lists: Seq<Vec<Span>>) -> Seq<Set<(int, int)>> {
    lists.map_values(|l: Vec<Span>| spans_of(l@))
}

/// Leaving out a list that reaches counts one less.
proof fn lemma_skip(ls: Seq<Set<(int, int)>>, n: int, x: (int, int), i: int)
    requires
        0 <= i,
    ensures
        count_in(ls, n, x, -1) == count_in(ls, n, x, i) + if i < n && reaches(ls[i], x) { 1int } else { 0int },
    decreases n,
{
    if n > 0 {
        lemma_skip(ls, n - 1, x, i);
    }
}

/// If every list that reaches into `x` reaches into `y`, `y` counts no fewer.
proof fn lemma_count_mono(ls: Seq<Set<(int, int)>>, n: int, x: (int, int), y: (int, int), skip: int)
    requires
        forall|j: int| 0 <= j < n && reaches(#[trigger] ls[j], x) ==> reaches(ls[j], y),
    ensures
        count_in(ls, n, x, skip) <= count_in(ls, n, y, skip),
    decreases n,
{
    if n > 0 {
        lemma_count_mono(ls, n - 1, x, y, skip);
        assert(reaches(ls[n - 1], x) ==> reaches(ls[n - 1], y));
    }
}

pub proof fn lemma_count_pos(ls: Seq<Set<(int, int)>>, n: int, x: (int, int)) -> (i: int)
    requires
        count_in(ls, n, x, -1) >= 1,
    ensures
        0 <= i < n,
        reaches(ls[i], x),
    decreases n,
{
    if n <= 0 {
        0
    } else if reaches(ls[n - 1], x) {
        n - 1
    } else {
        lemma_count_pos(ls, n - 1, x)
    }
}

/// Of the intervals inside `x`, one that starts first.
proof fn lemma_first_start(ls: Seq<Set<(int, int)>>, x: (int, int), i: int, y: (int, int)) -> (r: (int, (int, int)))
    requires
        0 <= i < ls.len(),
        ls[i].contains(y),
        within(x, y),
    ensures
        0 <= r.0 < ls.len(),
        ls[r.0].contains(r.1),
        within(x, r.1),
        forall|j: int, z: (int, int)| 0 <= j < ls.len() && #[trigger] ls[j].contains(z) && within(x, z) ==> z.0 >= r.1.0,
    decreases y.0 - x.0,
{
    if forall|j: int, z: (int, int)| 0 <= j < ls.len() && #[trigger] ls[j].contains(z) && within(x, z) ==> z.0 >= y.0 {
        (i, y)
    } else {
        let (j, z) = choose|j: int, z: (int, int)| 0 <= j < ls.len() && #[trigger] ls[j].contains(z) && within(x, z) && z.0 < y.0;
        lemma_first_start(ls, x, j, z)
    }
}

/// How many of the values are at most `v`.
spec fn count_le(s: Seq<u32>, n: int, v: int) -> int
    decreases n,
{
    if n <= 0 {
        0
    } else {
        count_le(s, n - 1, v) + if s[n - 1] <= v {
            1int
        } else {
            0int
        }
    }
}

proof fn lemma_count_le(s: Seq<u32>, n: int, v: int)
    requires
        0 <= n <= s.len(),
    ensures
        0 <= count_le(s, n, v) <= n,
        (forall|i: int| 0 <= i < n ==> s[i] <= v) ==> count_le(s, n, v) == n,
    decreases n,
{
    if n > 0 {
        lemma_count_le(s, n - 1, v);
    }
}

proof fn lemma_count_le_push(s: Seq<u32>, e: u32, n: int, v: int)
    requires
        0 <= n <= s.len(),
    ensures
        count_le(s.push(e), n, v) == count_le(s, n, v),
    decreases n,
{
    if n > 0 {
        lemma_count_le_push(s, e, n - 1, v);
    }
}

/// No value between `a` and `b`: both bound as many.
proof fn lemma_count_le_same(s: Seq<u32>, n: int, a: int, b: int)
    requires
        0 <= n <= s.len(),
        a <= b,
        forall|i: int| 0 <= i < n ==> !(a < #[trigger] s[i] <= b),
    ensures
        count_le(s, n, a) == count_le(s, n, b),
    decreases n,
{
    if n > 0 {
        lemma_count_le_same(s, n - 1, a, b);
        assert(!(a < s[n - 1] <= b));
    }
}

proof fn lemma_count_le_mono(s: Seq<u32>, n: int, a: int, b: int)
    requires
        0 <= n <= s.len(),
        a <= b,
    ensures
        count_le(s, n, a) <= count_le(s, n, b),
    decreases n,
{
    if n > 0 {
        lemma_count_le_mono(s, n - 1, a, b);
    }
}

fn count_at_most(s: &Vec<u32>, v: u32) -> (r: usize)
    ensures
        r == count_le(s@, s@.len() as int, v as int),
{
    let mut n: usize = 0;
    let mut i: usize = 0;
    while i < s.len()
        invariant
            i <= s@.len(),
            n == count_le(s@, i as int, v as int),
            n <= i,
        decreases s@.len() - i,
    {
        if s[i] <= v {
            n = n + 1;
        }
        i = i + 1;
    }
    n
}

/// The least value from `e` on that at least `need` of `ends` do not pass.
fn soonest_end(ends: &Vec<u32>, need: usize, e: u32) -> (r: u32)
    requires
        need <= ends@.len(),
    ensures
        r >= e,
        count_le(ends@, ends@.len() as int, r as int) >= need,
        forall|v: int| e <= v && #[trigger] count_le(ends@, ends@.len() as int, v) >= need ==> r <= v,
{
    let ghost n = ends@.len() as int;
    if count_at_most(ends, e) >= need {
        return e;
    }
    // Some end past `e` is needed: the first that is enough.
    let mut best: u32 = u32::MAX;
    let mut i: usize = 0;
    proof {
        lemma_count_le(ends@, n, u32::MAX as int);
    }
    while i < ends.len()
        invariant
            n == ends@.len(),
            i <= n,
            best >= e,
            count_le(ends@, n, best as int) >= need,
            count_le(ends@, n, e as int) < need,
            forall|k: int| 0 <= k < i && e < #[trigger] ends@[k] && count_le(ends@, n, ends@[k] as int) >= need ==> best <= ends@[k],
            best == u32::MAX || exists|k: int| 0 <= k < n && #[trigger] ends@[k] == best,
        decreases n - i,
    {
        let v: u32 = ends[i];
        if v > e && v < best && count_at_most(ends, v) >= need {
            best = v;
        }
        i = i + 1;
    }
    proof {
        assert forall|v: int| e <= v && #[trigger] count_le(ends@, n, v) >= need implies best <= v by {
            if v < best {
                // The largest end at most `v` bounds as many.
                if v > e {
                    lemma_largest(ends@, n, e as int, v, need as int, best as int);
                }
            }
        }
    }
    best
}

/// A bound that is enough is no lower than the least end that is.
proof fn lemma_largest(s: Seq<u32>, n: int, e: int, v: int, need: int, best: int)
    requires
        0 <= n <= s.len(),
        e < v,
        count_le(s, n, e) < need,
        count_le(s, n, v) >= need,
        forall|k: int| 0 <= k < n && e < #[trigger] s[k] && count_le(s, n, s[k] as int) >= need ==> best <= s[k],
    ensures
        best <= v,
    decreases v - e,
{
    if forall|i: int| 0 <= i < n ==> !(v - 1 < #[trigger] s[i] <= v) {
        lemma_count_le_same(s, n, v - 1, v);
        if v - 1 > e {
            lemma_largest(s, n, e, v - 1, need, best);
        }
    } else {
        let i = choose|i: int| 0 <= i < n && (v - 1 < #[trigger] s[i] <= v);
        assert(s[i] == v);
    }
}

/// The ends of the first interval from `s` on of each list but `i`.
fn other_ends(lists: &Vec<Vec<Span>>, i: usize, s: u32) -> (r: Vec<u32>)
    requires
        forall|j: int| 0 <= j < lists@.len() ==> in_order((#[trigger] lists@[j])@),
    ensures
        forall|v: int| count_le(r@, r@.len() as int, v) == #[trigger] count_in(list_sets(lists@), lists@.len() as int, (s as int, v), i as int),
{
    let ghost ls = list_sets(lists@);
    let mut ends: Vec<u32> = Vec::new();
    let mut j: usize = 0;
    while j < lists.len()
        invariant
            j <= lists@.len(),
            ls == list_sets(lists@),
            forall|j: int| 0 <= j < lists@.len() ==> in_order((#[trigger] lists@[j])@),
            forall|v: int| count_le(ends@, ends@.len() as int, v) == #[trigger] count_in(ls, j as int, (s as int, v), i as int),
        decreases lists@.len() - j,
    {
        let ghost was = ends@;
        let other: &Vec<Span> = &lists[j];
        assert(in_order(lists@[j as int]@));
        let at: usize = first_from(other, s as u64);
        let take: bool = j != i && at < other.len();
        if take {
            ends.push(other[at].1);
        }
        proof {
            let jj = j as int;
            assert(ls[jj] == spans_of(other@));
            assert forall|v: int| count_le(ends@, ends@.len() as int, v) == #[trigger] count_in(ls, jj + 1, (s as int, v), i as int) by {
                assert(count_le(was, was.len() as int, v) == count_in(ls, jj, (s as int, v), i as int));
                let x = (s as int, v);
                if take {
                    let e = other@[at as int];
                    lemma_count_le_push(was, e.1, was.len() as int, v);
                    if e.1 <= v {
                        assert(ls[jj].contains(span_view(e)));
                        assert(within(x, span_view(e)));
                    } else {
                        assert(!reaches(ls[jj], x)) by {
                            if reaches(ls[jj], x) {
                                let y = choose|y: (int, int)| #[trigger] ls[jj].contains(y) && within(x, y);
                                let k = choose|k: int| 0 <= k < other@.len() && span_view(#[trigger] other@[k]) == y;
                                if k > at {
                                    assert(other@[at as int].1 < other@[k].1);
                                }
                            }
                        }
                    }
                } else if j != i {
                    assert(!reaches(ls[jj], x)) by {
                        if reaches(ls[jj], x) {
                            let y = choose|y: (int, int)| #[trigger] ls[jj].contains(y) && within(x, y);
                            let k = choose|k: int| 0 <= k < other@.len() && span_view(#[trigger] other@[k]) == y;
                            assert(other@[k].0 < s);
                        }
                    }
                }
            }
        }
        j = j + 1;
    }
    ends
}

/// The windows that start with interval `(s, e)` of list `i` are reached.
#[verifier::opaque]
spec fn start_done(ls: Seq<Set<(int, int)>>, k: int, out: Set<(int, int)>, i: int, s: int, e: int) -> bool {
    forall|v: int| e <= v && #[trigger] count_in(ls, ls.len() as int, (s, v), i) >= k - 1 ==> exists|y: (int, int)|
        #[trigger] out.contains(y) && within((s, v), y)
}

proof fn lemma_start_done_more(ls: Seq<Set<(int, int)>>, k: int, out: Set<(int, int)>, more: Set<(int, int)>, i: int, s: int, e: int)
    requires
        start_done(ls, k, out, i, s, e),
        forall|x: (int, int)| out.contains(x) ==> more.contains(x),
    ensures
        start_done(ls, k, more, i, s, e),
{
    reveal(start_done);
    assert forall|v: int| e <= v && #[trigger] count_in(ls, ls.len() as int, (s, v), i) >= k - 1 implies exists|y: (int, int)|
        #[trigger] more.contains(y) && within((s, v), y) by {
        let y = choose|y: (int, int)| #[trigger] out.contains(y) && within((s, v), y);
        assert(more.contains(y));
    }
}

/// The minimal windows holding an interval of at least `k` of `lists` (each
/// minimal, so sorted by start and end alike).
pub fn cover(lists: &Vec<Vec<Span>>, k: usize) -> (r: Vec<Span>)
    requires
        forall|j: int| 0 <= j < lists@.len() ==> in_order((#[trigger] lists@[j])@) && crate::interval::forward(spans_of(lists@[j]@)),
    ensures
        lists_minimal(r@, cover_windows(list_sets(lists@), k as int)),
{
    let ghost ls = list_sets(lists@);
    let ghost w = cover_windows(ls, k as int);
    let ghost n = ls.len() as int;
    let mut out: Vec<Span> = Vec::new();
    if k > 0 {
        // A minimal window starts where one of its intervals starts; from each
        // list, the first interval starting there or later ends soonest.
        let mut i: usize = 0;
        while i < lists.len()
            invariant
                i <= lists@.len(),
                k > 0,
                ls == list_sets(lists@),
                n == ls.len(),
                n == lists@.len(),
                w == cover_windows(ls, k as int),
                forall|j: int| 0 <= j < lists@.len() ==> in_order((#[trigger] lists@[j])@) && crate::interval::forward(spans_of(lists@[j]@)),
                forall|x: (int, int)| #[trigger] spans_of(out@).contains(x) ==> w.contains(x),
                forall|a: int, b: int| 0 <= a < i && 0 <= b < lists@[a]@.len() ==> start_done(ls, k as int, spans_of(out@), a, (#[trigger] lists@[a]@[b]).0 as int, lists@[a]@[b].1 as int),
            decreases lists@.len() - i,
        {
            let list: &Vec<Span> = &lists[i];
            let mut p: usize = 0;
            while p < list.len()
                invariant
                    i < lists@.len(),
                    k > 0,
                    list@ == lists@[i as int]@,
                    p <= list@.len(),
                    ls == list_sets(lists@),
                    n == ls.len(),
                    n == lists@.len(),
                    w == cover_windows(ls, k as int),
                    forall|j: int| 0 <= j < lists@.len() ==> in_order((#[trigger] lists@[j])@) && crate::interval::forward(spans_of(lists@[j]@)),
                    forall|x: (int, int)| #[trigger] spans_of(out@).contains(x) ==> w.contains(x),
                    forall|a: int, b: int| 0 <= a < i && 0 <= b < lists@[a]@.len() ==> start_done(ls, k as int, spans_of(out@), a, (#[trigger] lists@[a]@[b]).0 as int, lists@[a]@[b].1 as int),
                    forall|b: int| 0 <= b < p ==> start_done(ls, k as int, spans_of(out@), i as int, (#[trigger] list@[b]).0 as int, list@[b].1 as int),
                decreases list@.len() - p,
            {
                let (s, e): Span = list[p];
                let ends: Vec<u32> = other_ends(lists, i, s);
                let ghost was = out@;
                let ghost ii = i as int;
                proof {
                    assert(spans_of(list@).contains(span_view(list@[p as int])));
                    assert(crate::interval::forward(spans_of(lists@[ii]@)));
                    assert(0 <= s <= e);
                }
                if ends.len() >= k - 1 {
                    let end: u32 = soonest_end(&ends, k - 1, e);
                    out.push((s, end));
                    proof {
                        lemma_spans_push(was, (s, end));
                        let x = (s as int, end as int);
                        assert(count_le(ends@, ends@.len() as int, end as int) == count_in(ls, n, x, ii));
                        assert(ls[ii] == spans_of(list@));
                        assert(ls[ii].contains((s as int, e as int)));
                        assert(within(x, (s as int, e as int)));
                        lemma_skip(ls, n, x, ii);
                        assert(w.contains(x));
                        assert(start_done(ls, k as int, spans_of(out@), ii, s as int, e as int)) by {
                            reveal(start_done);
                            assert forall|v: int| e <= v && #[trigger] count_in(ls, n, (s as int, v), ii) >= k - 1 implies exists|y: (int, int)|
                                #[trigger] spans_of(out@).contains(y) && within((s as int, v), y) by {
                                assert(count_le(ends@, ends@.len() as int, v) >= k - 1);
                                assert(spans_of(out@).contains(x));
                                assert(within((s as int, v), x));
                            }
                        }
                    }
                } else {
                    proof {
                        assert(start_done(ls, k as int, spans_of(out@), ii, s as int, e as int)) by {
                            reveal(start_done);
                            assert forall|v: int| e <= v && #[trigger] count_in(ls, n, (s as int, v), ii) >= k - 1 implies false by {
                                lemma_count_le(ends@, ends@.len() as int, v);
                            }
                        }
                    }
                }
                proof {
                    assert forall|x: (int, int)| spans_of(was).contains(x) implies spans_of(out@).contains(x) by {
                        if ends@.len() >= k - 1 {
                            lemma_spans_push(was, out@.last());
                            assert(out@ =~= was.push(out@.last()));
                        }
                    }
                    assert forall|a: int, b: int| 0 <= a < i && 0 <= b < lists@[a]@.len() implies start_done(ls, k as int, spans_of(out@), a, (#[trigger] lists@[a]@[b]).0 as int, lists@[a]@[b].1 as int) by {
                        lemma_start_done_more(ls, k as int, spans_of(was), spans_of(out@), a, lists@[a]@[b].0 as int, lists@[a]@[b].1 as int);
                    }
                    assert forall|b: int| 0 <= b < p + 1 implies start_done(ls, k as int, spans_of(out@), ii, (#[trigger] list@[b]).0 as int, list@[b].1 as int) by {
                        if b < p {
                            lemma_start_done_more(ls, k as int, spans_of(was), spans_of(out@), ii, list@[b].0 as int, list@[b].1 as int);
                        }
                    }
                }
                p = p + 1;
            }
            i = i + 1;
        }
    }
    proof {
        let c = spans_of(out@);
        assert forall|x: (int, int)| #[trigger] w.contains(x) implies exists|y: (int, int)| #[trigger] c.contains(y) && within(x, y) by {
            let i0 = lemma_count_pos(ls, n, x);
            let y0 = choose|y: (int, int)| #[trigger] ls[i0].contains(y) && within(x, y);
            let (a, y) = lemma_first_start(ls, x, i0, y0);
            let s = y.0;
            let x2 = (s, x.1);
            assert forall|j: int| 0 <= j < n && reaches(#[trigger] ls[j], x) implies reaches(ls[j], x2) by {
                let z = choose|z: (int, int)| #[trigger] ls[j].contains(z) && within(x, z);
                assert(within(x2, z));
            }
            lemma_count_mono(ls, n, x, x2, -1);
            lemma_skip(ls, n, x2, a);
            assert(ls[a] == spans_of(lists@[a]@));
            let b = choose|b: int| 0 <= b < lists@[a]@.len() && span_view(#[trigger] lists@[a]@[b]) == y;
            assert(start_done(ls, k as int, c, a, lists@[a]@[b].0 as int, lists@[a]@[b].1 as int));
            reveal(start_done);
            assert(count_in(ls, n, (s, x.1), a) >= k - 1);
            let r = choose|r: (int, int)| #[trigger] c.contains(r) && within((s, x.1), r);
            assert(within(x, r));
        }
        lemma_same_minimal(c, w);
    }
    minimize(&mut out);
    out
}

// ---------------------------------------------------------------------------
// Phrases
// ---------------------------------------------------------------------------

/// A choice of one position per slot: in order, none closer to the one before
/// than the slots' offsets say.
pub open spec fn is_placing(pos: Seq<Set<int>>, offs: Seq<int>, p: Seq<int>) -> bool {
    &&& p.len() == pos.len()
    &&& forall|j: int| 0 <= j < p.len() ==> pos[j].contains(#[trigger] p[j])
    &&& forall|j: int| 0 < j < p.len() ==> #[trigger] p[j] >= p[j - 1] + offs[j] - offs[j - 1]
}

/// The windows of a phrase: from the first slot's position to the last one's,
/// with at most `slop` extra words in all.
pub open spec fn phrase_windows(pos: Seq<Set<int>>, offs: Seq<int>, slop: int) -> Set<(int, int)> {
    Set::new(|x: (int, int)| exists|p: Seq<int>| #[trigger] is_placing(pos, offs, p) && x == (p[0], p.last()) && (p.last() - p[0]) - (offs.last() - offs[0]) <= slop)
}

/// Offsets that do not descend.
pub open spec fn offsets_ok(offs: Seq<int>) -> bool {
    &&& offs.len() >= 1
    &&& forall|j: int| 0 < j < offs.len() ==> offs[j - 1] <= #[trigger] offs[j]
    &&& forall|j: int| 0 <= j < offs.len() ==> 0 <= #[trigger] offs[j] <= u32::MAX
}

/// The positions of a list.
pub open spec fn positions_of(v: Seq<u32>) -> Set<int> {
    Set::new(|x: int| exists|i: int| 0 <= i < v.len() && #[trigger] v[i] == x)
}

/// Strictly ascending.
pub open spec fn ascends(v: Seq<u32>) -> bool {
    forall|i: int, j: int| 0 <= i < j < v.len() ==> #[trigger] v[i] < #[trigger] v[j]
}

/// The first position at or after `from`.
pub fn first_at(v: &Vec<u32>, from: u64) -> (k: usize)
    requires
        ascends(v@),
    ensures
        k <= v@.len(),
        forall|i: int| 0 <= i < k ==> #[trigger] v@[i] < from,
        forall|i: int| k <= i < v@.len() ==> #[trigger] v@[i] >= from,
{
    let mut lo: usize = 0;
    let mut hi: usize = v.len();
    while lo < hi
        invariant
            ascends(v@),
            lo <= hi <= v@.len(),
            forall|i: int| 0 <= i < lo ==> #[trigger] v@[i] < from,
            forall|i: int| hi <= i < v@.len() ==> #[trigger] v@[i] >= from,
        decreases hi - lo,
    {
        let mid: usize = lo + (hi - lo) / 2;
        if (v[mid] as u64) < from {
            proof {
                assert forall|i: int| 0 <= i < mid + 1 implies #[trigger] v@[i] < from by {
                    if i < mid {
                        assert(v@[i] < v@[mid as int]);
                    }
                }
            }
            lo = mid + 1;
        } else {
            proof {
                assert forall|i: int| mid <= i < v@.len() implies #[trigger] v@[i] >= from by {
                    if mid < i {
                        assert(v@[mid as int] < v@[i]);
                    }
                }
            }
            hi = mid;
        }
    }
    lo
}

/// The sets of the lists.
pub open spec fn position_sets(lists: Seq<Vec<u32>>) -> Seq<Set<int>> {
    lists.map_values(|l: Vec<u32>| positions_of(l@))
}

/// The numbers of a list.
pub open spec fn ints(v: Seq<u32>) -> Seq<int> {
    v.map_values(|x: u32| x as int)
}

/// The end of the shortest match that starts at `p0`. Taking the earliest
/// position for each slot minimizes both the extra words so far and the
/// constraint on the next slot.
fn match_from(pos: &Vec<Vec<u32>>, offs: &Vec<u32>, slop: u32, p0: u32) -> (r: Option<u32>)
    requires
        offsets_ok(ints(offs@)),
        pos@.len() == offs@.len(),
        forall|j: int| 0 <= j < pos@.len() ==> ascends((#[trigger] pos@[j])@),
        position_sets(pos@)[0].contains(p0 as int),
    ensures
        r is Some ==> phrase_windows(position_sets(pos@), ints(offs@), slop as int).contains((p0 as int, r->0 as int)),
        forall|p: Seq<int>| #[trigger] is_placing(position_sets(pos@), ints(offs@), p) && p[0] == p0 && (p.last() - p[0]) - (ints(offs@).last() - ints(offs@)[0]) <= slop
            ==> r is Some && r->0 <= p.last(),
{
    let ghost sets = position_sets(pos@);
    let ghost os = ints(offs@);
    let n: usize = offs.len();
    let mut cur: u32 = p0;
    let mut extra: u64 = 0;
    let mut j: usize = 1;
    let ghost mut chosen: Seq<int> = seq![p0 as int];
    while j < n
        invariant
            n == offs@.len(),
            n == pos@.len(),
            sets == position_sets(pos@),
            os == ints(offs@),
            offsets_ok(os),
            1 <= j <= n,
            forall|j: int| 0 <= j < pos@.len() ==> ascends((#[trigger] pos@[j])@),
            chosen.len() == j,
            chosen[0] == p0,
            chosen.last() == cur,
            forall|k: int| 0 <= k < j ==> sets[k].contains(#[trigger] chosen[k]),
            forall|k: int| 0 < k < j ==> #[trigger] chosen[k] >= chosen[k - 1] + os[k] - os[k - 1],
            extra == (cur - p0) - (os[j - 1] - os[0]),
            extra <= slop,
            forall|p: Seq<int>, k: int| #![trigger is_placing(sets, os, p), chosen[k]] is_placing(sets, os, p) && p[0] == p0 && 0 <= k < j ==> chosen[k] <= p[k],
        decreases n - j,
    {
        proof {
            assert(os[j as int] == offs@[j as int] && os[j - 1] == offs@[j - 1]);
            assert(os[j - 1] <= os[j as int]);
        }
        let need: u64 = cur as u64 + (offs[j] - offs[j - 1]) as u64;
        let list: &Vec<u32> = &pos[j];
        assert(ascends(pos@[j as int]@));
        let k: usize = first_at(list, need);
        proof {
            assert(sets[j as int] == positions_of(list@));
            assert forall|p: Seq<int>| #[trigger] is_placing(sets, os, p) && p[0] == p0 implies k < list@.len() && list@[k as int] <= p[j as int] by {
                assert(chosen[j - 1] <= p[j - 1]);
                assert(p[j as int] >= p[j - 1] + os[j as int] - os[j - 1]);
                assert(sets[j as int].contains(p[j as int]));
                let i = choose|i: int| 0 <= i < list@.len() && #[trigger] list@[i] == p[j as int];
                assert(list@[i] >= need);
                assert(i >= k);
                if i > k {
                    assert(list@[k as int] < list@[i]);
                }
            }
        }
        if k >= list.len() {
            return None;
        }
        let p: u32 = list[k];
        extra = extra + (p as u64 - need);
        if extra > slop as u64 {
            proof {
                assert forall|q: Seq<int>| #[trigger] is_placing(sets, os, q) && q[0] == p0 && (q.last() - q[0]) - (os.last() - os[0]) <= slop implies false by {
                    assert(list@[k as int] <= q[j as int]);
                    lemma_extra_grows(sets, os, q, j as int, n as int - 1);
                }
            }
            return None;
        }
        proof {
            assert(sets[j as int].contains(p as int)) by {
                assert(list@[k as int] == p);
            }
            chosen = chosen.push(p as int);
        }
        cur = p;
        j = j + 1;
    }
    proof {
        assert(is_placing(sets, os, chosen));
        assert forall|p: Seq<int>| #[trigger] is_placing(sets, os, p) && p[0] == p0 implies cur <= p.last() by {
            assert(chosen[n - 1] <= p[n - 1]);
        }
    }
    Some(cur)
}

/// Extra words never shrink along a placing.
proof fn lemma_extra_grows(pos: Seq<Set<int>>, offs: Seq<int>, p: Seq<int>, a: int, b: int)
    requires
        is_placing(pos, offs, p),
        0 <= a <= b < p.len(),
    ensures
        p[a] - offs[a] <= p[b] - offs[b],
    decreases b - a,
{
    if a < b {
        lemma_extra_grows(pos, offs, p, a, b - 1);
        assert(p[b] >= p[b - 1] + offs[b] - offs[b - 1]);
    }
}

/// The minimal windows of a phrase: each slot at its offset from the previous
/// one or later, with at most `slop` extra words in all.
pub fn phrase(pos: &Vec<Vec<u32>>, offs: &Vec<u32>, slop: u32) -> (r: Vec<Span>)
    requires
        offsets_ok(ints(offs@)),
        pos@.len() == offs@.len(),
        forall|j: int| 0 <= j < pos@.len() ==> ascends((#[trigger] pos@[j])@),
    ensures
        lists_minimal(r@, phrase_windows(position_sets(pos@), ints(offs@), slop as int)),
{
    let ghost sets = position_sets(pos@);
    let ghost os = ints(offs@);
    let ghost w = phrase_windows(sets, os, slop as int);
    let mut out: Vec<Span> = Vec::new();
    let first: &Vec<u32> = &pos[0];
    let mut i: usize = 0;
    while i < first.len()
        invariant
            offsets_ok(os),
            os == ints(offs@),
            sets == position_sets(pos@),
            pos@.len() == offs@.len(),
            pos@.len() >= 1,
            first@ == pos@[0]@,
            forall|j: int| 0 <= j < pos@.len() ==> ascends((#[trigger] pos@[j])@),
            w == phrase_windows(sets, os, slop as int),
            i <= first@.len(),
            forall|x: (int, int)| #[trigger] spans_of(out@).contains(x) ==> w.contains(x),
            forall|k: int, p: Seq<int>| #![trigger first@[k], is_placing(sets, os, p)] 0 <= k < i && is_placing(sets, os, p) && p[0] == first@[k] && (p.last() - p[0]) - (os.last() - os[0]) <= slop
                ==> exists|y: (int, int)| #[trigger] spans_of(out@).contains(y) && within((p[0], p.last()), y),
        decreases first@.len() - i,
    {
        let p0: u32 = first[i];
        let ghost was = out@;
        proof {
            assert(sets[0] == positions_of(first@));
            assert(first@[i as int] == p0);
        }
        let got: Option<u32> = match_from(pos, offs, slop, p0);
        if let Some(end) = got {
            out.push((p0, end));
            proof {
                lemma_spans_push(was, (p0, end));
            }
        }
        proof {
            assert forall|k: int, p: Seq<int>| #![trigger first@[k], is_placing(sets, os, p)] 0 <= k < i + 1 && is_placing(sets, os, p) && p[0] == first@[k] && (p.last() - p[0]) - (os.last() - os[0]) <= slop
                implies exists|y: (int, int)| #[trigger] spans_of(out@).contains(y) && within((p[0], p.last()), y) by {
                if k < i {
                    let y = choose|y: (int, int)| #[trigger] spans_of(was).contains(y) && within((p[0], p.last()), y);
                    assert(spans_of(out@).contains(y));
                } else {
                    let y = (p0 as int, got->0 as int);
                    assert(spans_of(out@).contains(y));
                }
            }
        }
        i = i + 1;
    }
    proof {
        let c = spans_of(out@);
        assert forall|x: (int, int)| #[trigger] w.contains(x) implies exists|y: (int, int)| #[trigger] c.contains(y) && within(x, y) by {
            let p = choose|p: Seq<int>| #[trigger] is_placing(sets, os, p) && x == (p[0], p.last()) && (p.last() - p[0]) - (os.last() - os[0]) <= slop;
            assert(sets[0].contains(p[0]));
            assert(sets[0] == positions_of(first@));
            let k = choose|k: int| 0 <= k < first@.len() && #[trigger] first@[k] == p[0];
            assert(first@[k] == p[0]);
        }
        lemma_same_minimal(c, w);
    }
    minimize(&mut out);
    out
}

} // verus!
