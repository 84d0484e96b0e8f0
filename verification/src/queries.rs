//! Seeded synthetic query set: conjunctions, disjunctions, mixed boolean, and
//! negations over real terms.

use vstd::prelude::*;
use vstd::utf8::encode_utf8;
use crate::index::Index;
use crate::lexer::joined;
use crate::plan::{lemma_plan_parts, lemma_plan_view, plan_accepts, plan_matches, plan_views, some_accepted, Plan, PlanView};
use crate::segment::Segment;
use crate::terms::TermTable;
use crate::text::{char_less, chars_of, compare, copy_of};
use crate::tokenize::strings_view;
use crate::wire::term_tids;

verus! {

/// Only terms in at least this many tuples are used, so queries do real work.
pub const MIN_DF: u64 = 1_000;

/// A segment's term counts toward that from this many tuples on.
pub const MIN_SEGMENT_DF: u64 = 62;

pub const TOP_N: usize = 500;

/// Terms that a query set needs to draw from.
pub const MIN_POOL: usize = 10;

/// Draws for one query before the rest of its terms is taken in order.
pub const MAX_DRAWS: u32 = 65536;

#[derive(Copy, Clone, Debug, PartialEq, Eq, Structural)]
pub enum Kind {
    Conjunction,
    Disjunction,
    Mixed,
    Negation,
}

impl Kind {
    /// The kinds, in the order that a query set has them.
    pub open spec fn nth(k: int) -> Kind {
        if k == 0 {
            Kind::Conjunction
        } else if k == 1 {
            Kind::Disjunction
        } else if k == 2 {
            Kind::Mixed
        } else {
            Kind::Negation
        }
    }

    /// Every kind.
    pub fn all() -> (r: Vec<Kind>)
        ensures
            r@.len() == 4,
            forall|k: int| 0 <= k < 4 ==> #[trigger] r@[k] == Kind::nth(k),
    {
        vec![Kind::Conjunction, Kind::Disjunction, Kind::Mixed, Kind::Negation]
    }

    pub fn name(self) -> (r: &'static str)
        ensures
            r@ == (match self {
                Kind::Conjunction => "Conjunction"@,
                Kind::Disjunction => "Disjunction"@,
                Kind::Mixed => "Mixed"@,
                Kind::Negation => "Negation"@,
            }),
    {
        match self {
            Kind::Conjunction => "Conjunction",
            Kind::Disjunction => "Disjunction",
            Kind::Mixed => "Mixed",
            Kind::Negation => "Negation",
        }
    }
}

pub struct Query {
    pub kind: Kind,
    pub text: String,
    pub plan: Plan,
}

pub struct QuerySet {
    queries: Vec<Query>,
    pub pool_size: usize,
}

// ---------------------------------------------------------------------------
// Random numbers
// ---------------------------------------------------------------------------

/// The state after one step.
pub open spec fn stepped(state: u64) -> u64 {
    state.wrapping_add(0x9E37_79B9_7F4A_7C15)
}

/// The number that a state gives (SplitMix64).
pub open spec fn mixed(z: u64) -> u64 {
    let a = (z ^ (z >> 30)).wrapping_mul(0xBF58_476D_1CE4_E5B9);
    let b = (a ^ (a >> 27)).wrapping_mul(0x94D0_49BB_1331_11EB);
    b ^ (b >> 31)
}

/// A SplitMix64 generator.
pub struct Rng(pub u64);

impl Rng {
    pub fn next(&mut self) -> (r: u64)
        ensures
            final(self).0 == stepped(old(self).0),
            r == mixed(stepped(old(self).0)),
    {
        self.0 = self.0.wrapping_add(0x9E37_79B9_7F4A_7C15);
        let z: u64 = self.0;
        let a: u64 = (z ^ (z >> 30)).wrapping_mul(0xBF58_476D_1CE4_E5B9);
        let b: u64 = (a ^ (a >> 27)).wrapping_mul(0x94D0_49BB_1331_11EB);
        b ^ (b >> 31)
    }

    /// A number below `n`.
    pub fn below(&mut self, n: usize) -> (r: usize)
        requires
            n > 0,
        ensures
            final(self).0 == stepped(old(self).0),
            r == mixed(stepped(old(self).0)) % (n as u64),
            r < n,
    {
        (self.next() % n as u64) as usize
    }
}

// ---------------------------------------------------------------------------
// The pool
// ---------------------------------------------------------------------------

/// How many tuples of a segment have the term, if enough do.
pub open spec fn counted(s: Segment, t: Seq<char>) -> int {
    let n = crate::index::freq(s, t);
    if n >= MIN_SEGMENT_DF {
        n
    } else {
        0
    }
}

/// The same over the first `n` segments.
pub open spec fn counted_sum(s: Seq<Segment>, t: Seq<char>, n: int) -> int
    decreases n,
{
    if n <= 0 {
        0
    } else {
        counted_sum(s, t, n - 1) + counted(s[n - 1], t)
    }
}

/// More frequent terms come first, equally frequent ones in order.
pub open spec fn comes_first(a: (Seq<char>, u64), b: (Seq<char>, u64)) -> bool {
    a.1 > b.1 || (a.1 == b.1 && char_less(a.0, b.0))
}

/// A pool entry as it reads.
pub open spec fn entry_view(e: (String, u64)) -> (Seq<char>, u64) {
    (e.0@, e.1)
}

/// The frequent terms of an index, most frequent first.
pub open spec fn is_pool(p: Seq<(String, u64)>, segs: Seq<Segment>) -> bool {
    &&& forall|i: int, j: int| 0 <= i < j < p.len() ==> comes_first(entry_view(#[trigger] p[i]), entry_view(#[trigger] p[j]))
    &&& forall|i: int| 0 <= i < p.len() ==> (#[trigger] p[i]).1 >= MIN_DF && p[i].1 == counted_sum(segs, p[i].0@, segs.len() as int)
    &&& forall|t: Seq<char>|
        #[trigger] counted_sum(segs, t, segs.len() as int) >= MIN_DF ==> exists|i: int| 0 <= i < p.len() && (#[trigger] p[i]).0@ == t
}

proof fn lemma_counted_mono(s: Seq<Segment>, t: Seq<char>, a: int, b: int)
    requires
        0 <= a <= b,
    ensures
        0 <= counted_sum(s, t, a) <= counted_sum(s, t, b),
    decreases b,
{
    if b > 0 {
        lemma_counted_mono(s, t, if a < b { a } else { a - 1 }, b - 1);
    }
}

/// Counts by term number, of the first `n` segments and the first `m` terms
/// of the next.
spec fn counts_ok(names: Seq<Seq<char>>, counts: Seq<u64>, segs: Seq<Segment>, n: int, list: Seq<(String, u64)>, m: int) -> bool {
    &&& names.len() == counts.len()
    &&& forall|x: int| 0 <= x < names.len() ==> #[trigger] counts[x] == counted_sum(segs, names[x], n) + listed(list, names[x], m)
    &&& forall|t: Seq<char>| #[trigger] counted_sum(segs, t, n) + listed(list, t, m) > 0 ==> names.contains(t)
}

/// What the first `m` terms of a list count for a term.
spec fn listed(list: Seq<(String, u64)>, t: Seq<char>, m: int) -> int
    decreases m,
{
    if m <= 0 {
        0
    } else {
        listed(list, t, m - 1) + (if list[m - 1].0@ == t && list[m - 1].1 >= MIN_SEGMENT_DF { list[m - 1].1 as int } else { 0 })
    }
}

/// A list of all terms of a segment, none twice, counts what the segment does.
proof fn lemma_listed(s: Segment, list: Seq<(String, u64)>, t: Seq<char>)
    requires
        forall|i: int| 0 <= i < list.len() ==> {
            let key = encode_utf8((#[trigger] list[i]).0@);
            s.values().dom().contains(key) && list[i].1 == term_tids(s.values()[key], s.area(), s.dir()).len()
        },
        forall|u: Seq<char>| #[trigger] s.values().dom().contains(encode_utf8(u)) ==> exists|i: int| 0 <= i < list.len() && (#[trigger] list[i]).0@ == u,
        forall|i: int, j: int| 0 <= i < j < list.len() ==> (#[trigger] list[i]).0@ != (#[trigger] list[j]).0@,
    ensures
        listed(list, t, list.len() as int) == counted(s, t),
{
    if exists|i: int| 0 <= i < list.len() && (#[trigger] list[i]).0@ == t {
        let i = choose|i: int| 0 <= i < list.len() && (#[trigger] list[i]).0@ == t;
        lemma_listed_at(list, t, i, list.len() as int);
    } else {
        lemma_listed_none(list, t, list.len() as int);
    }
}

proof fn lemma_listed_none(list: Seq<(String, u64)>, t: Seq<char>, m: int)
    requires
        0 <= m <= list.len(),
        forall|i: int| 0 <= i < m ==> (#[trigger] list[i]).0@ != t,
    ensures
        listed(list, t, m) == 0,
    decreases m,
{
    if m > 0 {
        lemma_listed_none(list, t, m - 1);
    }
}

proof fn lemma_listed_at(list: Seq<(String, u64)>, t: Seq<char>, i: int, m: int)
    requires
        0 <= i < m <= list.len(),
        list[i].0@ == t,
        forall|a: int, b: int| 0 <= a < b < list.len() ==> (#[trigger] list[a]).0@ != (#[trigger] list[b]).0@,
    ensures
        listed(list, t, m) == (if list[i].1 >= MIN_SEGMENT_DF { list[i].1 as int } else { 0 }),
    decreases m,
{
    if m - 1 == i {
        assert forall|k: int| 0 <= k < i implies (#[trigger] list[k]).0@ != t by {
        }
        lemma_listed_none(list, t, i);
    } else {
        assert(list[i].0@ != list[m - 1].0@);
        lemma_listed_at(list, t, i, m - 1);
    }
}

proof fn lemma_listed_pos(list: Seq<(String, u64)>, t: Seq<char>, a: int, b: int)
    requires
        0 <= a <= b,
    ensures
        0 <= listed(list, t, a) <= listed(list, t, b),
    decreases b,
{
    if b > 0 {
        lemma_listed_pos(list, t, if a < b { a } else { a - 1 }, b - 1);
    }
}

/// The frequent terms of an index, most frequent first.
pub fn term_pool(index: &Index) -> (r: Vec<(String, u64)>)
    requires
        index.wf(),
        forall|t: Seq<char>| #[trigger] counted_sum(index.spec_segments(), t, index.spec_segments().len() as int) <= u64::MAX,
    ensures
        is_pool(r@, index.spec_segments()),
{
    let segs: &Vec<Segment> = index.segments();
    let ghost sv = segs@;
    let ghost n = sv.len() as int;
    let mut table: TermTable = TermTable::new();
    let mut counts: Vec<u64> = Vec::new();
    let mut i: usize = 0;
    let ghost none = Seq::<(String, u64)>::empty();
    while i < segs.len()
        invariant
            sv == segs@,
            n == sv.len(),
            sv == index.spec_segments(),
            index.wf(),
            i <= sv.len(),
            forall|t: Seq<char>| #[trigger] counted_sum(sv, t, n) <= u64::MAX,
            table.wf(),
            none.len() == 0,
            counts_ok(table.names(), counts@, sv, i as int, none, 0),
        decreases sv.len() - i,
    {
        let seg: &Segment = &segs[i];
        proof {
            assert(index.spec_segments()[i as int].wf());
        }
        let list: Vec<(String, u64)> = seg.for_each_term();
        proof {
            assert forall|a: int, b: int| 0 <= a < b < list@.len() implies (#[trigger] list@[a]).0@ != (#[trigger] list@[b]).0@ by {
                crate::dict::lemma_bytes_total(encode_utf8(list@[a].0@), encode_utf8(list@[b].0@));
            }
            assert forall|t: Seq<char>| #[trigger] listed(list@, t, list@.len() as int) == counted(*seg, t) by {
                lemma_listed(*seg, list@, t);
            }
            assert forall|x: int| 0 <= x < table.names().len() implies #[trigger] counts@[x] == counted_sum(sv, table.names()[x], i as int) + listed(
                list@,
                table.names()[x],
                0,
            ) by {
            }
            assert forall|t: Seq<char>| #[trigger] counted_sum(sv, t, i as int) + listed(list@, t, 0) > 0 implies table.names().contains(t) by {
                assert(counted_sum(sv, t, i as int) + listed(none, t, 0) > 0);
            }
        }
        let mut j: usize = 0;
        while j < list.len()
            invariant
                sv == segs@,
                n == sv.len(),
                i < n,
                *seg == sv[i as int],
                j <= list@.len(),
                forall|t: Seq<char>| #[trigger] counted_sum(sv, t, n) <= u64::MAX,
                forall|t: Seq<char>| #[trigger] listed(list@, t, list@.len() as int) == counted(*seg, t),
                table.wf(),
                counts_ok(table.names(), counts@, sv, i as int, list@, j as int),
            decreases list@.len() - j,
        {
            let df: u64 = list[j].1;
            let ghost names = table.names();
            let ghost before = counts@;
            let ghost u = list@[j as int].0@;
            if df >= MIN_SEGMENT_DF {
                let id: usize = table.intern(list[j].0.as_str());
                proof {
                    table.lemma_distinct();
                    lemma_listed_pos(list@, u, j + 1, list@.len() as int);
                    lemma_counted_mono(sv, u, i + 1, n);
                    assert(counted_sum(sv, u, i + 1) == counted_sum(sv, u, i as int) + counted(*seg, u));
                    assert(counted_sum(sv, u, n) <= u64::MAX);
                    lemma_counted_mono(sv, u, i as int, i as int);
                    lemma_listed_pos(list@, u, j as int, j as int);
                }
                if id == counts.len() {
                    proof {
                        if counted_sum(sv, u, i as int) + listed(list@, u, j as int) > 0 {
                            assert(names.contains(u));
                        }
                    }
                    counts.push(df);
                } else {
                    let c: u64 = counts[id];
                    counts.set(id, c + df);
                }
                proof {
                    let now = table.names();
                    assert forall|x: int| 0 <= x < now.len() implies #[trigger] counts@[x] == counted_sum(sv, now[x], i as int) + listed(
                        list@,
                        now[x],
                        j + 1,
                    ) by {
                        if x != id {
                            assert(now[x] == names[x]);
                            assert(counts@[x] == before[x]);
                            assert(now[x] != now[id as int]);
                        }
                    }
                    assert forall|t: Seq<char>| #[trigger] counted_sum(sv, t, i as int) + listed(list@, t, j + 1) > 0 implies now.contains(t) by {
                        if t == u {
                            assert(now[id as int] == t);
                        } else {
                            assert(counted_sum(sv, t, i as int) + listed(list@, t, j as int) > 0);
                            let x = names.index_of(t);
                            assert(now[x] == t);
                        }
                    }
                }
            } else {
                proof {
                    assert forall|x: int| 0 <= x < names.len() implies #[trigger] counts@[x] == counted_sum(sv, names[x], i as int) + listed(
                        list@,
                        names[x],
                        j + 1,
                    ) by {
                    }
                    assert forall|t: Seq<char>| #[trigger] counted_sum(sv, t, i as int) + listed(list@, t, j + 1) > 0 implies names.contains(t) by {
                        assert(counted_sum(sv, t, i as int) + listed(list@, t, j as int) > 0);
                    }
                }
            }
            j = j + 1;
        }
        proof {
            let names = table.names();
            assert forall|x: int| 0 <= x < names.len() implies #[trigger] counts@[x] == counted_sum(sv, names[x], i + 1) + listed(none, names[x], 0) by {
                assert(listed(list@, names[x], list@.len() as int) == counted(*seg, names[x]));
            }
            assert forall|t: Seq<char>| #[trigger] counted_sum(sv, t, i + 1) + listed(none, t, 0) > 0 implies names.contains(t) by {
                assert(listed(list@, t, list@.len() as int) == counted(*seg, t));
                assert(counted_sum(sv, t, i as int) + listed(list@, t, j as int) > 0);
            }
        }
        i = i + 1;
    }
    let mut pool: Vec<(String, u64)> = Vec::new();
    let mut k: usize = 0;
    let ghost names = table.names();
    while k < counts.len()
        invariant
            names == table.names(),
            table.wf(),
            none.len() == 0,
            k <= counts@.len(),
            counts_ok(names, counts@, sv, n, none, 0),
            forall|a: int, b: int| 0 <= a < b < pool@.len() ==> comes_first(entry_view(#[trigger] pool@[a]), entry_view(#[trigger] pool@[b])),
            forall|a: int| 0 <= a < pool@.len() ==> (#[trigger] pool@[a]).1 >= MIN_DF && exists|x: int|
                0 <= x < k && #[trigger] names[x] == pool@[a].0@ && counts@[x] == pool@[a].1,
            forall|x: int| 0 <= x < k && counts@[x] >= MIN_DF ==> exists|a: int| 0 <= a < pool@.len() && (#[trigger] pool@[a]).0@ == #[trigger] names[x],
        decreases counts@.len() - k,
    {
        if counts[k] >= MIN_DF {
            let e: (String, u64) = (copy_of(table.name(k).as_str()), counts[k]);
            let ghost was = pool@;
            let ghost ev = entry_view(e);
            proof {
                table.lemma_distinct();
                assert forall|a: int| 0 <= a < pool@.len() implies (#[trigger] pool@[a]).0@ != ev.0 by {
                    let x = choose|x: int| 0 <= x < k && #[trigger] names[x] == pool@[a].0@ && counts@[x] == pool@[a].1;
                    assert(names[x] != names[k as int]);
                }
            }
            let at: usize = insert_entry(&mut pool, e);
            proof {
                assert forall|a: int| 0 <= a < pool@.len() implies (#[trigger] pool@[a]).1 >= MIN_DF && exists|x: int|
                    0 <= x < k + 1 && #[trigger] names[x] == pool@[a].0@ && counts@[x] == pool@[a].1 by {
                    if a == at {
                        assert(names[k as int] == pool@[a].0@);
                    } else {
                        let o = was[if a < at { a } else { a - 1 }];
                        assert(pool@[a] == o);
                        let x = choose|x: int| 0 <= x < k && #[trigger] names[x] == o.0@ && counts@[x] == o.1;
                        assert(0 <= x < k + 1 && names[x] == pool@[a].0@);
                    }
                }
                assert forall|x: int| 0 <= x < k + 1 && counts@[x] >= MIN_DF implies exists|a: int|
                    0 <= a < pool@.len() && (#[trigger] pool@[a]).0@ == #[trigger] names[x] by {
                    if x == k {
                        assert(pool@[at as int].0@ == names[x]);
                    } else {
                        let a = choose|a: int| 0 <= a < was.len() && (#[trigger] was[a]).0@ == names[x];
                        assert(pool@[if a < at { a } else { a + 1 }].0@ == names[x]);
                    }
                }
            }
        }
        k = k + 1;
    }
    proof {
        assert forall|a: int| 0 <= a < pool@.len() implies (#[trigger] pool@[a]).1 >= MIN_DF && pool@[a].1 == counted_sum(sv, pool@[a].0@, n) by {
            let x = choose|x: int| 0 <= x < k && #[trigger] names[x] == pool@[a].0@ && counts@[x] == pool@[a].1;
            assert(counts@[x] == counted_sum(sv, names[x], n) + listed(none, names[x], 0));
        }
        assert forall|t: Seq<char>| #[trigger] counted_sum(sv, t, n) >= MIN_DF implies exists|a: int| 0 <= a < pool@.len() && (#[trigger] pool@[a]).0@ == t by {
            assert(counted_sum(sv, t, n) + listed(none, t, 0) > 0);
            let x = names.index_of(t);
            assert(names[x] == t);
            assert(counts@[x] == counted_sum(sv, names[x], n) + listed(none, names[x], 0));
            let a = choose|a: int| 0 <= a < pool@.len() && (#[trigger] pool@[a]).0@ == names[x];
            assert(pool@[a].0@ == t);
        }
    }
    pool
}

/// Put an entry in its place; returns where that is.
fn insert_entry(pool: &mut Vec<(String, u64)>, e: (String, u64)) -> (r: usize)
    requires
        forall|a: int, b: int| 0 <= a < b < old(pool)@.len() ==> comes_first(entry_view(#[trigger] old(pool)@[a]), entry_view(#[trigger] old(pool)@[b])),
        forall|a: int| 0 <= a < old(pool)@.len() ==> (#[trigger] old(pool)@[a]).0@ != e.0@,
    ensures
        r <= old(pool)@.len(),
        final(pool)@ == old(pool)@.insert(r as int, e),
        forall|a: int, b: int|
            0 <= a < b < final(pool)@.len() ==> comes_first(entry_view(#[trigger] final(pool)@[a]), entry_view(#[trigger] final(pool)@[b])),
{
    let ghost was = pool@;
    let cs: Vec<char> = chars_of(e.0.as_str());
    let mut lo: usize = 0;
    let mut hi: usize = pool.len();
    let ghost ev = entry_view(e);
    while lo < hi
        invariant
            was == pool@,
            cs@ == e.0@,
            ev == entry_view(e),
            lo <= hi <= pool@.len(),
            forall|a: int, b: int| 0 <= a < b < was.len() ==> comes_first(entry_view(#[trigger] was[a]), entry_view(#[trigger] was[b])),
            forall|a: int| 0 <= a < was.len() ==> (#[trigger] was[a]).0@ != e.0@,
            forall|a: int| 0 <= a < lo ==> comes_first(entry_view(#[trigger] was[a]), ev),
            forall|a: int| hi <= a < was.len() ==> comes_first(ev, entry_view(#[trigger] was[a])),
        decreases hi - lo,
    {
        let mid: usize = lo + (hi - lo) / 2;
        let c: i8 = compare(chars_of(pool[mid].0.as_str()).as_slice(), cs.as_slice());
        let first: bool = pool[mid].1 > e.1 || (pool[mid].1 == e.1 && c < 0);
        let ghost m = entry_view(was[mid as int]);
        if first {
            proof {
                assert forall|a: int| 0 <= a < mid + 1 implies comes_first(entry_view(#[trigger] was[a]), ev) by {
                    if a < mid {
                        lemma_first_trans(entry_view(was[a]), m, ev);
                    }
                }
            }
            lo = mid + 1;
        } else {
            proof {
                assert(comes_first(ev, m)) by {
                    assert(was[mid as int].0@ != e.0@);
                }
                assert forall|a: int| mid <= a < was.len() implies comes_first(ev, entry_view(#[trigger] was[a])) by {
                    if a > mid {
                        lemma_first_trans(ev, m, entry_view(was[a]));
                    }
                }
            }
            hi = mid;
        }
    }
    pool.insert(lo, e);
    proof {
        let p = pool@;
        assert forall|a: int, b: int| 0 <= a < b < p.len() implies comes_first(entry_view(#[trigger] p[a]), entry_view(#[trigger] p[b])) by {
            let x = if a < lo { a } else { a - 1 };
            let y = if b < lo { b } else { b - 1 };
            if a == lo {
                assert(comes_first(ev, entry_view(was[y])));
            } else if b == lo {
                assert(comes_first(entry_view(was[x]), ev));
            } else {
                assert(comes_first(entry_view(was[x]), entry_view(was[y])));
            }
        }
    }
    lo
}

proof fn lemma_first_trans(a: (Seq<char>, u64), b: (Seq<char>, u64), c: (Seq<char>, u64))
    requires
        comes_first(a, b),
        comes_first(b, c),
    ensures
        comes_first(a, c),
{
    if a.1 == b.1 && b.1 == c.1 {
        crate::text::lemma_less_trans(a.0, b.0, c.0);
    }
}

// ---------------------------------------------------------------------------
// Queries
// ---------------------------------------------------------------------------

/// Whether a term is drawn from the most frequent, and which: three times in
/// ten. The state after.
pub open spec fn draw(len: int, top: int, state: u64) -> (int, u64) {
    let s1 = stepped(state);
    let s2 = stepped(s1);
    let n = if mixed(s1) % 10 < 3 { top } else { len };
    (mixed(s2) as int % n, s2)
}

/// The numbers of the terms of a query, drawn until there are `n` different
/// ones; the state after.
pub open spec fn picks(len: int, top: int, n: int, state: u64, chosen: Seq<int>, fuel: int) -> (Seq<int>, u64)
    decreases fuel,
{
    if chosen.len() >= n {
        (chosen, state)
    } else if fuel <= 0 {
        (filled(chosen, n, 0, len), state)
    } else {
        let (t, s) = draw(len, top, state);
        picks(len, top, n, s, if chosen.contains(t) { chosen } else { chosen.push(t) }, fuel - 1)
    }
}

/// The first numbers from `from` on that are not there are added, up to `n`.
pub open spec fn filled(chosen: Seq<int>, n: int, from: int, len: int) -> Seq<int>
    decreases len - from,
{
    if chosen.len() >= n || from >= len {
        chosen
    } else {
        filled(if chosen.contains(from) { chosen } else { chosen.push(from) }, n, from + 1, len)
    }
}

/// How many terms a query has; the state after.
pub open spec fn arity(kind: Kind, state: u64) -> (int, u64) {
    match kind {
        Kind::Conjunction | Kind::Disjunction => (2 + mixed(stepped(state)) as int % 2, stepped(state)),
        _ => (3, state),
    }
}

/// Texts with `sep` between them.
pub open spec fn join_text(ts: Seq<Seq<char>>, sep: Seq<char>) -> Seq<char>
    decreases ts.len(),
{
    if ts.len() == 0 {
        Seq::empty()
    } else if ts.len() == 1 {
        ts[0]
    } else {
        join_text(ts.drop_last(), sep) + sep + ts.last()
    }
}

/// The text of a query.
pub open spec fn text_for(kind: Kind, ts: Seq<Seq<char>>) -> Seq<char> {
    match kind {
        Kind::Conjunction => join_text(ts, " "@),
        Kind::Disjunction => join_text(ts, " OR "@),
        Kind::Mixed => "("@ + ts[0] + " OR "@ + ts[1] + ") "@ + ts[2],
        Kind::Negation => ts[0] + " "@ + ts[1] + " -"@ + ts[2],
    }
}

/// One plan for each term.
pub open spec fn leaves(ts: Seq<Seq<char>>) -> Seq<PlanView> {
    Seq::new(ts.len(), |i: int| PlanView::Term(ts[i]))
}

/// The plan of a query.
pub open spec fn plan_for(kind: Kind, ts: Seq<Seq<char>>) -> PlanView {
    match kind {
        Kind::Conjunction => PlanView::And(leaves(ts)),
        Kind::Disjunction => PlanView::Or(leaves(ts)),
        Kind::Mixed => PlanView::And(seq![PlanView::Or(leaves(seq![ts[0], ts[1]])), PlanView::Term(ts[2])]),
        Kind::Negation => PlanView::AndNot(Box::new(PlanView::And(leaves(seq![ts[0], ts[1]]))), Box::new(PlanView::Term(ts[2]))),
    }
}

/// The terms of pool entries.
pub open spec fn terms_at(pool: Seq<(String, u64)>, picked: Seq<int>) -> Seq<Seq<char>> {
    Seq::new(picked.len(), |i: int| pool[picked[i]].0@)
}

pub open spec fn top_of(len: int) -> int {
    if len < TOP_N {
        len
    } else {
        TOP_N as int
    }
}

/// The terms of one query, and the state after.
pub open spec fn query_picks(pool: Seq<(String, u64)>, kind: Kind, state: u64) -> (Seq<int>, u64) {
    let (n, s) = arity(kind, state);
    picks(pool.len() as int, top_of(pool.len() as int), n, s, Seq::empty(), MAX_DRAWS as int)
}

/// The state before query `k`.
pub open spec fn state_at(pool: Seq<(String, u64)>, per_kind: int, seed: u64, k: int) -> u64
    decreases k,
{
    if k <= 0 {
        seed
    } else {
        query_picks(pool, Kind::nth((k - 1) / per_kind), state_at(pool, per_kind, seed, k - 1)).1
    }
}

/// Query `k` of a set.
pub open spec fn is_query(q: Query, pool: Seq<(String, u64)>, per_kind: int, seed: u64, k: int) -> bool {
    let kind = Kind::nth(k / per_kind);
    let ts = terms_at(pool, query_picks(pool, kind, state_at(pool, per_kind, seed, k)).0);
    &&& q.kind == kind
    &&& q.text@ == text_for(kind, ts)
    &&& q.plan.view() == plan_for(kind, ts)
}

/// Numbers as they are.
pub open spec fn ints(v: Seq<usize>) -> Seq<int> {
    v.map_values(|x: usize| x as int)
}

fn has_number(v: &Vec<usize>, x: usize) -> (r: bool)
    ensures
        r == ints(v@).contains(x as int),
{
    let mut i: usize = 0;
    while i < v.len()
        invariant
            i <= v@.len(),
            forall|k: int| 0 <= k < i ==> #[trigger] v@[k] != x,
        decreases v@.len() - i,
    {
        if v[i] == x {
            proof {
                assert(ints(v@)[i as int] == x);
            }
            return true;
        }
        i = i + 1;
    }
    proof {
        if ints(v@).contains(x as int) {
            let k = ints(v@).index_of(x as int);
            assert(v@[k] == x);
        }
    }
    false
}

/// All numbers are different and below `len`.
spec fn drawn_ok(s: Seq<int>, len: int) -> bool {
    &&& s.no_duplicates()
    &&& forall|i: int| 0 <= i < s.len() ==> 0 <= #[trigger] s[i] < len
}

proof fn lemma_push_drawn(s: Seq<int>, t: int, len: int)
    requires
        drawn_ok(s, len),
        0 <= t < len,
        !s.contains(t),
    ensures
        drawn_ok(s.push(t), len),
{
    let p = s.push(t);
    assert forall|i: int, j: int| 0 <= i < p.len() && 0 <= j < p.len() && i != j implies p[i] != p[j] by {
        if i < s.len() && j == s.len() {
            assert(s.contains(s[i]));
        }
        if j < s.len() && i == s.len() {
            assert(s.contains(s[j]));
        }
    }
}

/// Draw the terms of one query.
fn draw_terms(pool_len: usize, n: usize, rng: &mut Rng) -> (r: Vec<usize>)
    requires
        pool_len >= MIN_POOL,
        n <= 3,
    ensures
        (ints(r@), final(rng).0) == picks(pool_len as int, top_of(pool_len as int), n as int, old(rng).0, Seq::empty(), MAX_DRAWS as int),
        drawn_ok(ints(r@), pool_len as int),
        r@.len() == n,
{
    let top: usize = if pool_len < TOP_N {
        pool_len
    } else {
        TOP_N
    };
    let ghost all = picks(pool_len as int, top as int, n as int, rng.0, Seq::empty(), MAX_DRAWS as int);
    let mut out: Vec<usize> = Vec::new();
    let mut fuel: u32 = MAX_DRAWS;
    proof {
        assert(ints(out@) =~= Seq::empty());
    }
    while out.len() < n && fuel > 0
        invariant
            pool_len >= MIN_POOL,
            n <= 3,
            top == top_of(pool_len as int),
            fuel <= MAX_DRAWS,
            out@.len() <= n,
            drawn_ok(ints(out@), pool_len as int),
            picks(pool_len as int, top as int, n as int, rng.0, ints(out@), fuel as int) == all,
        decreases fuel,
    {
        let ghost was = ints(out@);
        let often: bool = rng.below(10) < 3;
        let t: usize = if often {
            rng.below(top)
        } else {
            rng.below(pool_len)
        };
        if !has_number(&out, t) {
            out.push(t);
            proof {
                assert(ints(out@) =~= was.push(t as int));
                lemma_push_drawn(was, t as int, pool_len as int);
            }
        }
        fuel = fuel - 1;
    }
    let mut from: usize = 0;
    let ghost rest = filled(ints(out@), n as int, 0, pool_len as int);
    proof {
        if out@.len() >= n {
            assert(rest == ints(out@));
        }
    }
    while out.len() < n && from < pool_len
        invariant
            from <= pool_len,
            pool_len >= MIN_POOL,
            n <= 3,
            out@.len() <= n,
            drawn_ok(ints(out@), pool_len as int),
            filled(ints(out@), n as int, from as int, pool_len as int) == rest,
            forall|x: int| 0 <= x < from ==> ints(out@).contains(x),
        decreases pool_len - from,
    {
        let ghost was = ints(out@);
        if !has_number(&out, from) {
            out.push(from);
            proof {
                assert(ints(out@) =~= was.push(from as int));
                lemma_push_drawn(was, from as int, pool_len as int);
            }
        }
        proof {
            assert forall|x: int| 0 <= x < from + 1 implies ints(out@).contains(x) by {
                if x < from {
                    assert(was.contains(x));
                    let k = was.index_of(x);
                    assert(ints(out@)[k] == x);
                } else if !was.contains(from as int) {
                    assert(ints(out@)[was.len() as int] == from);
                }
            }
        }
        from = from + 1;
    }
    proof {
        if out@.len() < n {
            lemma_too_many(ints(out@), 4);
        }
    }
    out
}

/// A list that has all numbers below `n` is at least that long.
proof fn lemma_too_many(s: Seq<int>, n: int)
    requires
        n == 4,
        forall|x: int| 0 <= x < n ==> s.contains(x),
    ensures
        s.len() >= n,
{
    let (a, b, c, d) = (s.index_of(0), s.index_of(1), s.index_of(2), s.index_of(3));
    assert(s.contains(0) && s.contains(1) && s.contains(2) && s.contains(3));
    assert(s[a] == 0 && s[b] == 1 && s[c] == 2 && s[d] == 3);
}

fn leaf_plans(ts: &Vec<String>, n: usize) -> (r: Vec<Plan>)
    requires
        n <= ts@.len(),
    ensures
        plan_views(r@) == leaves(strings_view(ts@).take(n as int)),
{
    let mut out: Vec<Plan> = Vec::new();
    let mut i: usize = 0;
    while i < n
        invariant
            i <= n <= ts@.len(),
            out@.len() == i,
            forall|k: int| 0 <= k < i ==> (#[trigger] out@[k]).view() == PlanView::Term(ts@[k]@),
        decreases n - i,
    {
        out.push(Plan::Term(copy_of(ts[i].as_str())));
        i = i + 1;
    }
    proof {
        assert(plan_views(out@) =~= leaves(strings_view(ts@).take(n as int)));
    }
    out
}

fn join_strings(ts: &Vec<String>, sep: &str) -> (r: String)
    requires
        ts@.len() >= 1,
    ensures
        r@ == join_text(strings_view(ts@), sep@),
{
    let ghost all = strings_view(ts@);
    let mut out: String = copy_of(ts[0].as_str());
    let mut i: usize = 1;
    while i < ts.len()
        invariant
            1 <= i <= ts@.len(),
            all == strings_view(ts@),
            out@ == join_text(all.take(i as int), sep@),
        decreases ts@.len() - i,
    {
        out = joined(&vec![out.as_str(), sep, ts[i].as_str()]);
        proof {
            let next = all.take(i + 1);
            assert(next.drop_last() =~= all.take(i as int));
            assert(next.last() == ts@[i as int]@);
        }
        i = i + 1;
    }
    proof {
        assert(all.take(i as int) =~= all);
    }
    out
}

fn make_query(kind: Kind, ts: &Vec<String>) -> (r: Query)
    requires
        ts@.len() >= 2,
        kind == Kind::Mixed || kind == Kind::Negation ==> ts@.len() == 3,
    ensures
        r.kind == kind,
        r.text@ == text_for(kind, strings_view(ts@)),
        r.plan.view() == plan_for(kind, strings_view(ts@)),
{
    let ghost tv = strings_view(ts@);
    let n: usize = ts.len();
    proof {
        assert(tv.take(n as int) =~= tv);
        if n == 3 {
            assert(tv.take(2) =~= seq![tv[0], tv[1]]);
        }
    }
    match kind {
        Kind::Conjunction => {
            let plan: Plan = Plan::And(leaf_plans(ts, n));
            proof {
                lemma_plan_view(plan);
            }
            proof {
                assert(plan.view() == plan_for(Kind::Conjunction, tv));
            }
            Query { kind, text: join_strings(ts, " "), plan }
        },
        Kind::Disjunction => {
            let plan: Plan = Plan::Or(leaf_plans(ts, n));
            proof {
                lemma_plan_view(plan);
            }
            proof {
                assert(plan.view() == plan_for(Kind::Disjunction, tv));
            }
            Query { kind, text: join_strings(ts, " OR "), plan }
        },
        Kind::Mixed => {
            let either: Plan = Plan::Or(leaf_plans(ts, 2));
            proof {
                lemma_plan_view(either);
            }
            let mut both: Vec<Plan> = Vec::new();
            both.push(either);
            both.push(Plan::Term(copy_of(ts[2].as_str())));
            let plan: Plan = Plan::And(both);
            proof {
                lemma_plan_view(plan);
                assert(plan_views(both@) =~= seq![PlanView::Or(leaves(seq![tv[0], tv[1]])), PlanView::Term(tv[2])]);
            }
            proof {
                assert(plan.view() == plan_for(Kind::Mixed, tv));
            }
            let a: String = joined(&vec!["(", ts[0].as_str(), " OR ", ts[1].as_str()]);
            let text: String = joined(&vec![a.as_str(), ") ", ts[2].as_str()]);
            Query { kind, text, plan }
        },
        Kind::Negation => {
            let both: Plan = Plan::And(leaf_plans(ts, 2));
            proof {
                lemma_plan_view(both);
            }
            let last: Plan = Plan::Term(copy_of(ts[2].as_str()));
            proof {
                assert(last.view() == PlanView::Term(tv[2]));
            }
            let plan: Plan = Plan::AndNot(Box::new(both), Box::new(last));
            proof {
                assert(plan.view() == PlanView::AndNot(Box::new(PlanView::And(leaves(seq![tv[0], tv[1]]))), Box::new(PlanView::Term(tv[2]))));
            }
            let a: String = joined(&vec![ts[0].as_str(), " ", ts[1].as_str()]);
            let text: String = joined(&vec![a.as_str(), " -", ts[2].as_str()]);
            Query { kind, text, plan }
        },
    }
}

impl QuerySet {
    /// How many terms the queries are drawn from.
    pub closed spec fn spec_pool_size(&self) -> int {
        self.pool_size as int
    }

    /// The queries.
    pub closed spec fn spec_all(&self) -> Seq<Query> {
        self.queries@
    }

    /// `per_kind` queries of each kind over the terms of `index`; `None` if
    /// the corpus is too small.
    pub fn generate(index: &Index, per_kind: usize, seed: u64) -> (r: Option<Self>)
        requires
            index.wf(),
            forall|t: Seq<char>| #[trigger] counted_sum(index.spec_segments(), t, index.spec_segments().len() as int) <= u64::MAX,
            4 * per_kind <= usize::MAX,
        ensures
            exists|pool: Seq<(String, u64)>| #[trigger] is_pool(pool, index.spec_segments()) && match r {
                Some(s) => {
                    &&& pool.len() >= MIN_POOL
                    &&& s.spec_pool_size() == pool.len()
                    &&& s.spec_all().len() == 4 * per_kind
                    &&& forall|k: int| 0 <= k < s.spec_all().len() ==> is_query(#[trigger] s.spec_all()[k], pool, per_kind as int, seed, k)
                },
                None => pool.len() < MIN_POOL,
            },
    {
        let pool: Vec<(String, u64)> = term_pool(index);
        let pool_len: usize = pool.len();
        if pool_len < MIN_POOL {
            return None;
        }
        let kinds: Vec<Kind> = Kind::all();
        let mut rng: Rng = Rng(seed);
        let mut queries: Vec<Query> = Vec::new();
        let mut g: usize = 0;
        while g < 4
            invariant
                g <= 4,
                4 * per_kind <= usize::MAX,
                kinds@.len() == 4,
                forall|k: int| 0 <= k < 4 ==> #[trigger] kinds@[k] == Kind::nth(k),
                pool_len == pool@.len(),
                pool_len >= MIN_POOL,
                queries@.len() == g * per_kind,
                rng.0 == state_at(pool@, per_kind as int, seed, g * per_kind),
                forall|k: int| 0 <= k < queries@.len() ==> is_query(#[trigger] queries@[k], pool@, per_kind as int, seed, k),
            decreases 4 - g,
        {
            let kind: Kind = kinds[g];
            let mut c: usize = 0;
            while c < per_kind
                invariant
                    g < 4,
                    c <= per_kind,
                    4 * per_kind <= usize::MAX,
                    kind == Kind::nth(g as int),
                    pool_len == pool@.len(),
                    pool_len >= MIN_POOL,
                    queries@.len() == g * per_kind + c,
                    rng.0 == state_at(pool@, per_kind as int, seed, g * per_kind + c),
                    forall|k: int| 0 <= k < queries@.len() ==> is_query(#[trigger] queries@[k], pool@, per_kind as int, seed, k),
                decreases per_kind - c,
            {
                let ghost k = g * per_kind + c;
                let ghost state = rng.0;
                proof {
                    assert(k / (per_kind as int) == g) by (nonlinear_arith)
                        requires
                            k == g * per_kind + c,
                            0 <= c < per_kind,
                    ;
                }
                let n: usize = match kind {
                    Kind::Conjunction | Kind::Disjunction => 2 + rng.below(2),
                    Kind::Mixed | Kind::Negation => 3,
                };
                let picked: Vec<usize> = draw_terms(pool_len, n, &mut rng);
                let mut ts: Vec<String> = Vec::new();
                let mut i: usize = 0;
                while i < picked.len()
                    invariant
                        i <= picked@.len(),
                        pool_len == pool@.len(),
                        drawn_ok(ints(picked@), pool_len as int),
                        ts@.len() == i,
                        forall|x: int| 0 <= x < i ==> (#[trigger] ts@[x])@ == pool@[picked@[x] as int].0@,
                    decreases picked@.len() - i,
                {
                    proof {
                        assert(0 <= ints(picked@)[i as int] < pool_len);
                    }
                    ts.push(copy_of(pool[picked[i]].0.as_str()));
                    i = i + 1;
                }
                proof {
                    assert(strings_view(ts@) =~= terms_at(pool@, ints(picked@)));
                    assert((ints(picked@), rng.0) == query_picks(pool@, kind, state));
                }
                let q: Query = make_query(kind, &ts);
                proof {
                    assert(is_query(q, pool@, per_kind as int, seed, k));
                }
                queries.push(q);
                c = c + 1;
            }
            proof {
                assert((g + 1) * per_kind == g * per_kind + per_kind) by (nonlinear_arith);
            }
            g = g + 1;
        }
        proof {
            assert(is_pool(pool@, index.spec_segments()));
        }
        Some(QuerySet { queries, pool_size: pool_len })
    }

    pub fn all(&self) -> (r: &Vec<Query>)
        ensures
            r@ == self.spec_all(),
    {
        &self.queries
    }

    /// The numbers of the queries of one kind.
    pub fn of(&self, kind: Kind) -> (r: Vec<usize>)
        ensures
            forall|i: int| #[trigger] ints(r@).contains(i) <==> 0 <= i < self.spec_all().len() && self.spec_all()[i].kind == kind,
            forall|a: int, b: int| 0 <= a < b < r@.len() ==> #[trigger] r@[a] < #[trigger] r@[b],
    {
        let mut out: Vec<usize> = Vec::new();
        let mut i: usize = 0;
        while i < self.queries.len()
            invariant
                i <= self.queries@.len(),
                forall|k: int| #[trigger] ints(out@).contains(k) <==> 0 <= k < i && self.queries@[k].kind == kind,
                forall|a: int, b: int| 0 <= a < b < out@.len() ==> #[trigger] out@[a] < #[trigger] out@[b],
                forall|a: int| 0 <= a < out@.len() ==> #[trigger] out@[a] < i,
            decreases self.queries@.len() - i,
        {
            let ghost was = ints(out@);
            let hit: bool = self.queries[i].kind == kind;
            if hit {
                out.push(i);
            }
            proof {
                if hit {
                    assert(ints(out@) =~= was.push(i as int));
                }
                assert forall|k: int| #[trigger] ints(out@).contains(k) <==> 0 <= k < i + 1 && self.queries@[k].kind == kind by {
                    if hit {
                        assert(ints(out@)[was.len() as int] == i);
                        if was.contains(k) {
                            assert(ints(out@)[was.index_of(k)] == k);
                        }
                        if ints(out@).contains(k) && k != i {
                            assert(was[ints(out@).index_of(k)] == k);
                        }
                    }
                }
            }
            i = i + 1;
        }
        out
    }
}

// ---------------------------------------------------------------------------
// What a query set holds
// ---------------------------------------------------------------------------

proof fn lemma_filled(chosen: Seq<int>, n: int, from: int, len: int)
    requires
        0 <= from,
        chosen.no_duplicates(),
        chosen.len() <= n <= len,
        forall|i: int| 0 <= i < chosen.len() ==> 0 <= #[trigger] chosen[i] < len,
        forall|x: int| 0 <= x < from ==> chosen.contains(x),
    ensures
        filled(chosen, n, from, len).len() == n,
        filled(chosen, n, from, len).no_duplicates(),
        forall|i: int| 0 <= i < n ==> 0 <= #[trigger] filled(chosen, n, from, len)[i] < len,
    decreases len - from,
{
    if chosen.len() < n && from < len {
        let next = if chosen.contains(from) { chosen } else { chosen.push(from) };
        assert forall|x: int| 0 <= x < from + 1 implies next.contains(x) by {
            if x < from {
                assert(chosen.contains(x));
                let k = chosen.index_of(x);
                assert(next[k] == x);
            } else if !chosen.contains(from) {
                assert(next[chosen.len() as int] == from);
            }
        }
        lemma_filled(next, n, from + 1, len);
    } else if chosen.len() < n {
        lemma_all_inside(chosen, len);
    }
}

/// A list that holds every number below `len` is at least that long.
proof fn lemma_all_inside(s: Seq<int>, len: int)
    requires
        forall|x: int| 0 <= x < len ==> s.contains(x),
    ensures
        s.len() >= len,
{
    if len > 0 {
        let all = vstd::set_lib::set_int_range(0, len);
        vstd::set_lib::lemma_int_range(0, len);
        s.lemma_cardinality_of_set();
        assert(all.subset_of(s.to_set())) by {
            assert forall|x: int| all.contains(x) implies s.to_set().contains(x) by {
                assert(s.contains(x));
            }
        }
        vstd::set_lib::lemma_len_subset(all, s.to_set());
    }
}

proof fn lemma_picks(len: int, top: int, n: int, state: u64, chosen: Seq<int>, fuel: int)
    requires
        0 < top <= len,
        chosen.no_duplicates(),
        chosen.len() <= n <= len,
        forall|i: int| 0 <= i < chosen.len() ==> 0 <= #[trigger] chosen[i] < len,
    ensures
        ({
            let r = picks(len, top, n, state, chosen, fuel).0;
            &&& r.len() == n
            &&& r.no_duplicates()
            &&& forall|i: int| 0 <= i < n ==> 0 <= #[trigger] r[i] < len
        }),
    decreases fuel,
{
    if chosen.len() < n {
        if fuel <= 0 {
            lemma_filled(chosen, n, 0, len);
        } else {
            let (t, s) = draw(len, top, state);
            assert(0 <= t < len);
            lemma_picks(len, top, n, s, if chosen.contains(t) { chosen } else { chosen.push(t) }, fuel - 1);
        }
    }
}

/// A query has two or three terms of the pool, none of them twice; a mixed one
/// and a negation have three.
pub proof fn queries_have_distinct_terms(pool: Seq<(String, u64)>, kind: Kind, state: u64)
    requires
        pool.len() >= 3,
    ensures
        ({
            let r = query_picks(pool, kind, state).0;
            &&& 2 <= r.len() <= 3
            &&& kind == Kind::Mixed || kind == Kind::Negation ==> r.len() == 3
            &&& r.no_duplicates()
            &&& forall|i: int| 0 <= i < r.len() ==> 0 <= #[trigger] r[i] < pool.len()
        }),
{
    let (n, s) = arity(kind, state);
    lemma_picks(pool.len() as int, top_of(pool.len() as int), n, s, Seq::empty(), MAX_DRAWS as int);
}

proof fn lemma_term_leaf(t: Seq<char>, terms: Set<Seq<char>>)
    ensures
        plan_matches(PlanView::Term(t), terms) <==> terms.contains(t),
{
    let p = PlanView::Term(t);
    if terms.contains(t) {
        assert(plan_accepts(p, t));
        assert(some_accepted(p, terms));
    }
}

proof fn lemma_leaf_plans(ts: Seq<Seq<char>>, terms: Set<Seq<char>>)
    ensures
        plan_matches(PlanView::And(leaves(ts)), terms) <==> forall|i: int| 0 <= i < ts.len() ==> terms.contains(#[trigger] ts[i]),
        plan_matches(PlanView::Or(leaves(ts)), terms) <==> exists|i: int| 0 <= i < ts.len() && terms.contains(#[trigger] ts[i]),
{
    let v = leaves(ts);
    lemma_plan_parts(v, terms);
    assert forall|i: int| 0 <= i < ts.len() implies (plan_matches(#[trigger] v[i], terms) <==> terms.contains(ts[i])) by {
        lemma_term_leaf(ts[i], terms);
    }
    if exists|i: int| 0 <= i < ts.len() && terms.contains(#[trigger] ts[i]) {
        let i = choose|i: int| 0 <= i < ts.len() && terms.contains(#[trigger] ts[i]);
        assert(plan_matches(v[i], terms));
    }
    if forall|i: int| 0 <= i < v.len() ==> plan_matches(#[trigger] v[i], terms) {
        assert forall|i: int| 0 <= i < ts.len() implies terms.contains(#[trigger] ts[i]) by {
            assert(plan_matches(v[i], terms));
        }
    }
}

/// A conjunction matches what has all its terms, a disjunction what has one, a
/// mixed query what has one of the first two and the third, and a negation
/// what has the first two and not the third.
pub proof fn kinds_say_what_matches(kind: Kind, ts: Seq<Seq<char>>, terms: Set<Seq<char>>)
    requires
        kind == Kind::Mixed || kind == Kind::Negation ==> ts.len() == 3,
    ensures
        plan_matches(plan_for(kind, ts), terms) <==> match kind {
            Kind::Conjunction => forall|i: int| 0 <= i < ts.len() ==> terms.contains(#[trigger] ts[i]),
            Kind::Disjunction => exists|i: int| 0 <= i < ts.len() && terms.contains(#[trigger] ts[i]),
            Kind::Mixed => (terms.contains(ts[0]) || terms.contains(ts[1])) && terms.contains(ts[2]),
            Kind::Negation => terms.contains(ts[0]) && terms.contains(ts[1]) && !terms.contains(ts[2]),
        },
{
    lemma_leaf_plans(ts, terms);
    if ts.len() == 3 {
        let two = seq![ts[0], ts[1]];
        lemma_leaf_plans(two, terms);
        lemma_term_leaf(ts[2], terms);
        assert(two[0] == ts[0] && two[1] == ts[1]);
        let parts = seq![PlanView::Or(leaves(two)), PlanView::Term(ts[2])];
        lemma_plan_parts(parts, terms);
        assert(parts[0] == PlanView::Or(leaves(two)) && parts[1] == PlanView::Term(ts[2]));
    }
}

/// Only terms that a thousand tuples have are drawn from, counting the segments
/// in which 62 or more do; three in ten draws are among the first 500.
pub proof fn pools_hold_common_terms(p: Seq<(String, u64)>, segs: Seq<Segment>, t: Seq<char>, i: int)
    requires
        is_pool(p, segs),
        0 <= i < p.len(),
    ensures
        p[i].1 >= 1000,
        (exists|k: int| 0 <= k < p.len() && (#[trigger] p[k]).0@ == t) <==> counted_sum(segs, t, segs.len() as int) >= 1000,
        top_of(p.len() as int) <= 500,
        top_of(p.len() as int) == p.len() || top_of(p.len() as int) == 500,
        forall|k: int| 0 <= k < segs.len() ==> {
            let n = crate::index::freq(#[trigger] segs[k], t);
            counted(segs[k], t) == if n < 62 { 0 } else { n }
        },
{
    if exists|k: int| 0 <= k < p.len() && (#[trigger] p[k]).0@ == t {
        let k = choose|k: int| 0 <= k < p.len() && (#[trigger] p[k]).0@ == t;
        assert(p[k].1 >= MIN_DF);
    }
}

} // verus!
