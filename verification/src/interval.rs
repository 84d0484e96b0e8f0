//! Intervals of word positions, and the minimal ones of a set.

use vstd::prelude::*;

verus! {

/// A closed interval of word positions.
pub type Span = (u32, u32);

/// `outer` contains `inner`.
pub open spec fn within(outer: (int, int), inner: (int, int)) -> bool {
    outer.0 <= inner.0 && inner.1 <= outer.1
}

/// An interval of `s` that contains no other one of `s`.
pub open spec fn is_minimal(s: Set<(int, int)>, x: (int, int)) -> bool {
    s.contains(x) && forall|y: (int, int)| #[trigger] s.contains(y) && within(x, y) ==> y == x
}

/// The intervals of `s` that contain no other one of `s`.
pub open spec fn minimal(s: Set<(int, int)>) -> Set<(int, int)> {
    Set::new(|x: (int, int)| is_minimal(s, x))
}

pub open spec fn span_view(x: Span) -> (int, int) {
    (x.0 as int, x.1 as int)
}

/// The intervals of a list.
pub open spec fn spans_of(v: Seq<Span>) -> Set<(int, int)> {
    Set::new(|x: (int, int)| exists|i: int| 0 <= i < v.len() && span_view(#[trigger] v[i]) == x)
}

/// Starts and ends both ascend strictly.
pub open spec fn in_order(v: Seq<Span>) -> bool {
    forall|i: int, j: int| 0 <= i < j < v.len() ==> (#[trigger] v[i]).0 < (#[trigger] v[j]).0 && v[i].1 < v[j].1
}

/// The list holds the minimal intervals of `s`, in order.
pub open spec fn lists_minimal(v: Seq<Span>, s: Set<(int, int)>) -> bool {
    in_order(v) && spans_of(v) == minimal(s)
}

/// No interval of `s` contains another, and its intervals run forward.
pub open spec fn antichain(s: Set<(int, int)>) -> bool {
    forall|x: (int, int), y: (int, int)| #[trigger] s.contains(x) && #[trigger] s.contains(y) && within(x, y) ==> x == y
}

/// Every interval of `s` lies at natural positions, its start no later than
/// its end.
pub open spec fn forward(s: Set<(int, int)>) -> bool {
    forall|x: (int, int)| #[trigger] s.contains(x) ==> 0 <= x.0 <= x.1
}

/// Candidates that reach into every window have the windows' minimal
/// intervals.
pub proof fn lemma_same_minimal(c: Set<(int, int)>, w: Set<(int, int)>)
    requires
        forall|x: (int, int)| #[trigger] c.contains(x) ==> w.contains(x),
        forall|x: (int, int)| #[trigger] w.contains(x) ==> exists|y: (int, int)| #[trigger] c.contains(y) && within(x, y),
    ensures
        minimal(c) == minimal(w),
{
    assert forall|x: (int, int)| minimal(c).contains(x) <==> minimal(w).contains(x) by {
        if is_minimal(c, x) {
            assert(w.contains(x));
            assert forall|y: (int, int)| #[trigger] w.contains(y) && within(x, y) implies y == x by {
                let z = choose|z: (int, int)| #[trigger] c.contains(z) && within(y, z);
                assert(within(x, z));
            }
        }
        if is_minimal(w, x) {
            let y = choose|y: (int, int)| #[trigger] c.contains(y) && within(x, y);
            assert(w.contains(y));
        }
    }
    assert(minimal(c) =~= minimal(w));
}

/// Every interval contains a minimal one.
pub proof fn lemma_minimal_inside(s: Set<(int, int)>, x: (int, int)) -> (m: (int, int))
    requires
        forward(s),
        s.contains(x),
    ensures
        is_minimal(s, m),
        within(x, m),
    decreases x.1 - x.0,
{
    assert(0 <= x.0 <= x.1);
    if is_minimal(s, x) {
        x
    } else {
        let y = choose|y: (int, int)| #[trigger] s.contains(y) && within(x, y) && y != x;
        assert(0 <= y.0 <= y.1);
        lemma_minimal_inside(s, y)
    }
}

/// A set has a minimal interval exactly if it has one at all.
pub proof fn minimal_empty_iff_empty(s: Set<(int, int)>)
    requires
        forward(s),
    ensures
        (exists|x: (int, int)| minimal(s).contains(x)) <==> (exists|x: (int, int)| s.contains(x)),
{
    if exists|x: (int, int)| s.contains(x) {
        let x = choose|x: (int, int)| s.contains(x);
        let m = lemma_minimal_inside(s, x);
        assert(minimal(s).contains(m));
    }
    if exists|x: (int, int)| minimal(s).contains(x) {
        let x = choose|x: (int, int)| minimal(s).contains(x);
        assert(s.contains(x));
    }
}

/// A list of minimal intervals is an antichain.
pub proof fn lemma_in_order_antichain(v: Seq<Span>)
    requires
        in_order(v),
    ensures
        antichain(spans_of(v)),
{
    let s = spans_of(v);
    assert forall|x: (int, int), y: (int, int)| #[trigger] s.contains(x) && #[trigger] s.contains(y) && within(x, y) implies x == y by {
        let i = choose|i: int| 0 <= i < v.len() && span_view(#[trigger] v[i]) == x;
        let j = choose|j: int| 0 <= j < v.len() && span_view(#[trigger] v[j]) == y;
        if i < j {
            assert(v[i].1 < v[j].1);
        }
        if j < i {
            assert(v[j].0 < v[i].0);
        }
    }
}

/// An antichain is its own set of minimal intervals.
pub proof fn lemma_antichain_minimal(s: Set<(int, int)>)
    requires
        antichain(s),
    ensures
        minimal(s) == s,
{
    assert(minimal(s) =~= s);
}

/// `a` comes before `b` by end, then by latest start.
spec fn end_first(a: Span, b: Span) -> bool {
    a.1 < b.1 || (a.1 == b.1 && a.0 >= b.0)
}

spec fn by_end(v: Seq<Span>) -> bool {
    forall|i: int, j: int| 0 <= i < j < v.len() ==> end_first(#[trigger] v[i], #[trigger] v[j])
}

/// Sort by end, then latest start first.
fn sort_by_end(v: &Vec<Span>) -> (r: Vec<Span>)
    ensures
        by_end(r@),
        spans_of(r@) == spans_of(v@),
        r@.len() == v@.len(),
    decreases v@.len(),
{
    let n: usize = v.len();
    if n <= 1 {
        let mut one: Vec<Span> = Vec::new();
        if n == 1 {
            one.push(v[0]);
        }
        proof {
            assert(one@ =~= v@);
        }
        return one;
    }
    let half: usize = n / 2;
    let mut a: Vec<Span> = Vec::new();
    let mut b: Vec<Span> = Vec::new();
    let mut i: usize = 0;
    while i < n
        invariant
            n == v@.len(),
            half == n / 2,
            i <= n,
            a@ == v@.take(if i < half { i as int } else { half as int }),
            b@ == v@.subrange(if i < half { i as int } else { half as int }, i as int),
        decreases n - i,
    {
        if i < half {
            a.push(v[i]);
            proof {
                assert(v@.take(i + 1) =~= v@.take(i as int).push(v@[i as int]));
                assert(b@ =~= v@.subrange(i + 1, i + 1));
            }
        } else {
            b.push(v[i]);
            proof {
                assert(v@.subrange(half as int, i + 1) =~= v@.subrange(half as int, i as int).push(v@[i as int]));
            }
        }
        i = i + 1;
    }
    let x: Vec<Span> = sort_by_end(&a);
    let y: Vec<Span> = sort_by_end(&b);
    let mut out: Vec<Span> = Vec::new();
    let mut p: usize = 0;
    let mut q: usize = 0;
    proof {
        assert(spans_of(out@) =~= spans_of(x@.take(0)).union(spans_of(y@.take(0))));
    }
    while p < x.len() || q < y.len()
        invariant
            p <= x@.len(),
            q <= y@.len(),
            by_end(x@),
            by_end(y@),
            by_end(out@),
            out@.len() == p + q,
            forall|i: int, k: int| 0 <= i < out@.len() && p <= k < x@.len() ==> end_first(#[trigger] out@[i], #[trigger] x@[k]),
            forall|i: int, k: int| 0 <= i < out@.len() && q <= k < y@.len() ==> end_first(#[trigger] out@[i], #[trigger] y@[k]),
            spans_of(out@) == spans_of(x@.take(p as int)).union(spans_of(y@.take(q as int))),
        decreases x@.len() - p + y@.len() - q,
    {
        let left: bool = if p < x.len() {
            if q < y.len() {
                let (l, r): (Span, Span) = (x[p], y[q]);
                l.1 < r.1 || (l.1 == r.1 && l.0 >= r.0)
            } else {
                true
            }
        } else {
            false
        };
        let ghost was = out@;
        if left {
            let e: Span = x[p];
            out.push(e);
            proof {
                lemma_spans_push(was, e);
                assert(x@.take(p + 1) =~= x@.take(p as int).push(e));
                lemma_spans_push(x@.take(p as int), e);
                assert(spans_of(out@) =~= spans_of(x@.take(p + 1)).union(spans_of(y@.take(q as int))));
            }
            p = p + 1;
        } else {
            let e: Span = y[q];
            out.push(e);
            proof {
                lemma_spans_push(was, e);
                assert(y@.take(q + 1) =~= y@.take(q as int).push(e));
                lemma_spans_push(y@.take(q as int), e);
                assert(spans_of(out@) =~= spans_of(x@.take(p as int)).union(spans_of(y@.take(q + 1))));
            }
            q = q + 1;
        }
    }
    proof {
        assert(x@.take(p as int) =~= x@);
        assert(y@.take(q as int) =~= y@);
        assert(a@ + b@ =~= v@);
        lemma_spans_concat(a@, b@);
        assert(spans_of(out@) =~= spans_of(v@));
    }
    out
}

pub proof fn lemma_spans_push(v: Seq<Span>, e: Span)
    ensures
        spans_of(v.push(e)) == spans_of(v).insert(span_view(e)),
{
    let w = v.push(e);
    assert forall|x: (int, int)| spans_of(w).contains(x) <==> spans_of(v).insert(span_view(e)).contains(x) by {
        if spans_of(v).contains(x) {
            let i = choose|i: int| 0 <= i < v.len() && span_view(#[trigger] v[i]) == x;
            assert(span_view(w[i]) == x);
        }
        if x == span_view(e) {
            assert(span_view(w[v.len() as int]) == x);
        }
        if spans_of(w).contains(x) {
            let i = choose|i: int| 0 <= i < w.len() && span_view(#[trigger] w[i]) == x;
            if i < v.len() {
                assert(span_view(v[i]) == x);
            }
        }
    }
    assert(spans_of(w) =~= spans_of(v).insert(span_view(e)));
}

pub proof fn lemma_spans_concat(a: Seq<Span>, b: Seq<Span>)
    ensures
        spans_of(a + b) == spans_of(a).union(spans_of(b)),
{
    let w = a + b;
    assert forall|x: (int, int)| spans_of(w).contains(x) <==> spans_of(a).union(spans_of(b)).contains(x) by {
        if spans_of(a).contains(x) {
            let i = choose|i: int| 0 <= i < a.len() && span_view(#[trigger] a[i]) == x;
            assert(span_view(w[i]) == x);
        }
        if spans_of(b).contains(x) {
            let i = choose|i: int| 0 <= i < b.len() && span_view(#[trigger] b[i]) == x;
            assert(span_view(w[a.len() + i]) == x);
        }
        if spans_of(w).contains(x) {
            let i = choose|i: int| 0 <= i < w.len() && span_view(#[trigger] w[i]) == x;
            if i < a.len() {
                assert(span_view(a[i]) == x);
            } else {
                assert(span_view(b[i - a.len()]) == x);
            }
        }
    }
    assert(spans_of(w) =~= spans_of(a).union(spans_of(b)));
}

/// One of the first `n` intervals.
#[verifier::opaque]
spec fn taken_from(v: Seq<Span>, n: int, x: Span) -> bool {
    exists|j: int| 0 <= j < n && #[trigger] v[j] == x
}

/// An interval of `v` lies inside `x`.
#[verifier::opaque]
spec fn reached(v: Seq<Span>, x: Span) -> bool {
    exists|k: int| 0 <= k < v.len() && (#[trigger] v[k]).0 >= x.0 && v[k].1 <= x.1
}

proof fn lemma_taken(v: Seq<Span>, n: int, x: Span, j: int)
    requires
        0 <= j < n,
        v[j] == x,
    ensures
        taken_from(v, n, x),
{
    reveal(taken_from);
}

proof fn lemma_taken_index(v: Seq<Span>, n: int, x: Span) -> (j: int)
    requires
        taken_from(v, n, x),
    ensures
        0 <= j < n,
        v[j] == x,
{
    reveal(taken_from);
    choose|j: int| 0 <= j < n && #[trigger] v[j] == x
}

proof fn lemma_reached(v: Seq<Span>, x: Span, k: int)
    requires
        0 <= k < v.len(),
        v[k].0 >= x.0,
        v[k].1 <= x.1,
    ensures
        reached(v, x),
{
    reveal(reached);
}

proof fn lemma_reached_index(v: Seq<Span>, x: Span) -> (k: int)
    requires
        reached(v, x),
    ensures
        0 <= k < v.len(),
        v[k].0 >= x.0,
        v[k].1 <= x.1,
{
    reveal(reached);
    choose|k: int| 0 <= k < v.len() && (#[trigger] v[k]).0 >= x.0 && v[k].1 <= x.1
}

/// Keep only intervals containing no other, sorted by start (and end).
pub fn minimize(v: &mut Vec<Span>)
    ensures
        lists_minimal(final(v)@, spans_of(old(v)@)),
{
    // By end, then latest start first: an interval is minimal iff every
    // interval before it starts earlier.
    let sorted: Vec<Span> = sort_by_end(v);
    let ghost s = spans_of(v@);
    let mut out: Vec<Span> = Vec::new();
    let mut max_start: u32 = 0;
    let mut i: usize = 0;
    while i < sorted.len()
        invariant
            i <= sorted@.len(),
            by_end(sorted@),
            in_order(out@),
            out@.len() > 0 ==> out@.last().0 == max_start && i > 0 && out@.last().1 <= sorted@[i - 1].1,
            out@.len() == 0 ==> i == 0,
            forall|k: int| 0 <= k < i ==> (#[trigger] sorted@[k]).0 <= max_start,
            forall|k: int| 0 <= k < out@.len() ==> taken_from(sorted@, i as int, #[trigger] out@[k]),
            forall|j: int| 0 <= j < i ==> reached(out@, #[trigger] sorted@[j]),
        decreases sorted@.len() - i,
    {
        let e: Span = sorted[i];
        let ghost was = out@;
        if i == 0 || e.0 > max_start {
            proof {
                if was.len() > 0 {
                    let last = was[was.len() - 1];
                    let j = lemma_taken_index(sorted@, i as int, last);
                    assert(end_first(sorted@[j], sorted@[i as int]));
                    assert(last.1 < e.1);
                }
            }
            out.push(e);
            max_start = e.0;
            proof {
                assert forall|k: int| 0 <= k < out@.len() implies taken_from(sorted@, i + 1, #[trigger] out@[k]) by {
                    if k < was.len() {
                        let j = lemma_taken_index(sorted@, i as int, was[k]);
                        lemma_taken(sorted@, i + 1, was[k], j);
                    } else {
                        lemma_taken(sorted@, i + 1, e, i as int);
                    }
                }
                assert forall|j: int| 0 <= j < i + 1 implies reached(out@, #[trigger] sorted@[j]) by {
                    if j < i {
                        let k = lemma_reached_index(was, sorted@[j]);
                        lemma_reached(out@, sorted@[j], k);
                    } else {
                        lemma_reached(out@, sorted@[j], was.len() as int);
                    }
                }
                assert forall|a: int, b: int| 0 <= a < b < out@.len() implies (#[trigger] out@[a]).0 < (#[trigger] out@[b]).0 && out@[a].1 < out@[b].1 by {
                    if b == was.len() && a < was.len() - 1 {
                        assert(was[a].0 < was[was.len() - 1].0 && was[a].1 < was[was.len() - 1].1);
                    }
                }
            }
        } else {
            proof {
                assert(end_first(sorted@[i - 1], sorted@[i as int]));
                assert forall|j: int| 0 <= j < i + 1 implies reached(out@, #[trigger] sorted@[j]) by {
                    if j == i {
                        lemma_reached(out@, sorted@[j], out@.len() - 1);
                    }
                }
                assert forall|k: int| 0 <= k < out@.len() implies taken_from(sorted@, i + 1, #[trigger] out@[k]) by {
                    let j = lemma_taken_index(sorted@, i as int, out@[k]);
                    lemma_taken(sorted@, i + 1, out@[k], j);
                }
            }
        }
        i = i + 1;
    }
    proof {
        let c = spans_of(out@);
        let n = sorted@.len() as int;
        assert forall|x: (int, int)| #[trigger] c.contains(x) implies s.contains(x) by {
            let k = choose|k: int| 0 <= k < out@.len() && span_view(#[trigger] out@[k]) == x;
            let j = lemma_taken_index(sorted@, n, out@[k]);
            assert(span_view(sorted@[j]) == x);
            assert(spans_of(sorted@).contains(x));
        }
        assert forall|x: (int, int)| #[trigger] s.contains(x) implies exists|y: (int, int)| #[trigger] c.contains(y) && within(x, y) by {
            assert(spans_of(sorted@).contains(x));
            let j = choose|j: int| 0 <= j < sorted@.len() && span_view(#[trigger] sorted@[j]) == x;
            let k = lemma_reached_index(out@, sorted@[j]);
            let y = span_view(out@[k]);
            assert(c.contains(y));
        }
        lemma_same_minimal(c, s);
        lemma_in_order_antichain(out@);
        lemma_antichain_minimal(c);
    }
    *v = out;
}

/// `r` after `l` with at most `gap` words between.
pub open spec fn then_windows(l: Set<(int, int)>, r: Set<(int, int)>, gap: int) -> Set<(int, int)> {
    Set::new(|x: (int, int)| exists|a: (int, int), b: (int, int)|
        #[trigger] l.contains(a) && #[trigger] r.contains(b) && a.1 < b.0 && b.0 - a.1 - 1 <= gap && x == (a.0, b.1))
}

/// The first interval that starts at or after `from`.
pub fn first_from(r: &Vec<Span>, from: u64) -> (k: usize)
    requires
        in_order(r@),
    ensures
        k <= r@.len(),
        forall|i: int| 0 <= i < k ==> (#[trigger] r@[i]).0 < from,
        forall|i: int| k <= i < r@.len() ==> (#[trigger] r@[i]).0 >= from,
{
    let mut lo: usize = 0;
    let mut hi: usize = r.len();
    while lo < hi
        invariant
            in_order(r@),
            lo <= hi <= r@.len(),
            forall|i: int| 0 <= i < lo ==> (#[trigger] r@[i]).0 < from,
            forall|i: int| hi <= i < r@.len() ==> (#[trigger] r@[i]).0 >= from,
        decreases hi - lo,
    {
        let mid: usize = lo + (hi - lo) / 2;
        if (r[mid].0 as u64) < from {
            proof {
                assert forall|i: int| 0 <= i < mid + 1 implies (#[trigger] r@[i]).0 < from by {
                    if i < mid {
                        assert(r@[i].0 < r@[mid as int].0);
                    }
                }
            }
            lo = mid + 1;
        } else {
            proof {
                assert forall|i: int| mid <= i < r@.len() implies (#[trigger] r@[i]).0 >= from by {
                    if mid < i {
                        assert(r@[mid as int].0 < r@[i].0);
                    }
                }
            }
            hi = mid;
        }
    }
    lo
}

/// The windows of `r` after `l` with at most `gap` words between: for each
/// `l`, the first `r` starting after it ends soonest.
fn then_pairs(l: &Vec<Span>, r: &Vec<Span>, gap: u32) -> (v: Vec<Span>)
    requires
        in_order(r@),
    ensures
        forall|x: (int, int)| #[trigger] spans_of(v@).contains(x) ==> then_windows(spans_of(l@), spans_of(r@), gap as int).contains(x),
        forall|x: (int, int)| #[trigger] then_windows(spans_of(l@), spans_of(r@), gap as int).contains(x) ==> exists|y: (int, int)|
            #[trigger] spans_of(v@).contains(y) && within(x, y),
{
    let ghost w = then_windows(spans_of(l@), spans_of(r@), gap as int);
    let mut out: Vec<Span> = Vec::new();
    let mut i: usize = 0;
    while i < l.len()
        invariant
            in_order(r@),
            i <= l@.len(),
            w == then_windows(spans_of(l@), spans_of(r@), gap as int),
            forall|x: (int, int)| #[trigger] spans_of(out@).contains(x) ==> w.contains(x),
            forall|k: int, b: (int, int)| 0 <= k < i && #[trigger] spans_of(r@).contains(b) && (#[trigger] l@[k]).1 < b.0 && b.0 - l@[k].1 - 1 <= gap ==> exists|y: (int, int)|
                #[trigger] spans_of(out@).contains(y) && within((l@[k].0 as int, b.1), y),
        decreases l@.len() - i,
    {
        let (ls, le): Span = l[i];
        let at: usize = first_from(r, le as u64 + 1);
        let ghost was = out@;
        if at < r.len() {
            let (rs, re): Span = r[at];
            if rs - le - 1 <= gap {
                out.push((ls, re));
                proof {
                    lemma_spans_push(was, (ls, re));
                    let (a, b) = (span_view(l@[i as int]), span_view(r@[at as int]));
                    assert(spans_of(l@).contains(a));
                    assert(spans_of(r@).contains(b));
                    assert(w.contains((ls as int, re as int)));
                }
            }
        }
        proof {
            assert forall|k: int, b: (int, int)| 0 <= k < i + 1 && #[trigger] spans_of(r@).contains(b) && (#[trigger] l@[k]).1 < b.0 && b.0 - l@[k].1 - 1 <= gap implies exists|y: (int, int)|
                #[trigger] spans_of(out@).contains(y) && within((l@[k].0 as int, b.1), y) by {
                if k < i {
                    let y = choose|y: (int, int)| #[trigger] spans_of(was).contains(y) && within((l@[k].0 as int, b.1), y);
                    if at < r@.len() && r@[at as int].0 - le - 1 <= gap {
                        lemma_spans_push(was, (ls, r@[at as int].1));
                    }
                    assert(spans_of(out@).contains(y));
                } else {
                    let j = choose|j: int| 0 <= j < r@.len() && span_view(#[trigger] r@[j]) == b;
                    assert(j >= at);
                    if j > at {
                        assert(r@[at as int].0 < r@[j].0 && r@[at as int].1 < r@[j].1);
                    }
                    let y = (ls as int, r@[at as int].1 as int);
                    lemma_spans_push(was, (ls, r@[at as int].1));
                    assert(spans_of(out@).contains(y));
                }
            }
        }
        i = i + 1;
    }
    proof {
        assert forall|x: (int, int)| #[trigger] w.contains(x) implies exists|y: (int, int)| #[trigger] spans_of(out@).contains(y) && within(x, y) by {
            let (a, b) = choose|a: (int, int), b: (int, int)|
                #[trigger] spans_of(l@).contains(a) && #[trigger] spans_of(r@).contains(b) && a.1 < b.0 && b.0 - a.1 - 1 <= gap && x == (a.0, b.1);
            let k = choose|k: int| 0 <= k < l@.len() && span_view(#[trigger] l@[k]) == a;
            assert(spans_of(r@).contains(b) && l@[k].1 < b.0 && b.0 - l@[k].1 - 1 <= gap);
            let y = choose|y: (int, int)| #[trigger] spans_of(out@).contains(y) && within((l@[k].0 as int, b.1), y);
            assert(within(x, y));
        }
    }
    out
}

/// The minimal windows with `r` after `l` and at most `gap` words between; in
/// either order, unless `ordered`.
pub fn near(l: &Vec<Span>, r: &Vec<Span>, gap: u32, ordered: bool) -> (v: Vec<Span>)
    requires
        in_order(l@),
        in_order(r@),
    ensures
        lists_minimal(v@, near_windows(spans_of(l@), spans_of(r@), gap as int, ordered)),
{
    let ghost w = near_windows(spans_of(l@), spans_of(r@), gap as int, ordered);
    let mut out: Vec<Span> = then_pairs(l, r, gap);
    let ghost first = out@;
    let ghost mut second: Seq<Span> = Seq::empty();
    if !ordered {
        let mut back: Vec<Span> = then_pairs(r, l, gap);
        proof {
            second = back@;
        }
        out.append(&mut back);
        proof {
            assert(out@ =~= first + second);
            lemma_spans_concat(first, second);
        }
    }
    proof {
        assert forall|x: (int, int)| #[trigger] w.contains(x) implies exists|y: (int, int)| #[trigger] spans_of(out@).contains(y) && within(x, y) by {
            if then_windows(spans_of(l@), spans_of(r@), gap as int).contains(x) {
                let y = choose|y: (int, int)| #[trigger] spans_of(first).contains(y) && within(x, y);
                assert(spans_of(out@).contains(y));
            } else {
                assert(then_windows(spans_of(r@), spans_of(l@), gap as int).contains(x));
                let y = choose|y: (int, int)| #[trigger] spans_of(second).contains(y) && within(x, y);
                assert(spans_of(out@).contains(y));
            }
        }
        lemma_same_minimal(spans_of(out@), w);
    }
    minimize(&mut out);
    out
}

/// The windows of `NEAR/gap`, or of `THEN/gap` if `ordered`.
pub open spec fn near_windows(l: Set<(int, int)>, r: Set<(int, int)>, gap: int, ordered: bool) -> Set<(int, int)> {
    if ordered {
        then_windows(l, r, gap)
    } else {
        then_windows(l, r, gap).union(then_windows(r, l, gap))
    }
}

} // verus!
