//! Running a cursor to its end.

use vstd::prelude::*;
use crate::combine::Node;
use crate::cursor::{group_limit, none_between, Cursor, Model};
use crate::bitmap::PageBits;
use crate::space::{lemma_at, lemma_page_at, lemma_slot, lemma_start_mono, lemma_start_step, lemma_tid_at, GroupSpace, SpaceTable, Widths};
use crate::stream::bits_from;
use crate::tid::Tid;
use crate::words;
use crate::words::{bit, lemma_word_ops, ones_of, word_bit};

verus! {

/// Whether a tuple is live under a segment-wide liveness bitmap (all are,
/// without one).
pub open spec fn alive(d: Widths, live: Option<&[u64]>, t: Tid) -> bool {
    match live {
        None => true,
        Some(words) => bit(words@, d.tid_bit(t)),
    }
}

/// The matches that are live.
pub open spec fn live_tids(m: Model, live: Option<&[u64]>) -> Set<Tid> {
    Set::new(|t: Tid| m.tids.contains(t) && alive(m.dir, live, t))
}

/// `s` holds the members of `set` once each, in heap order.
pub open spec fn is_listing(s: Seq<Tid>, set: Set<Tid>) -> bool {
    &&& forall|i: int, j: int| 0 <= i < j < s.len() ==> (#[trigger] s[i]).before(#[trigger] s[j])
    &&& forall|t: Tid| #[trigger] s.contains(t) <==> set.contains(t)
}

/// A listing has as many entries as the set has members.
pub proof fn lemma_listing_len(s: Seq<Tid>, set: Set<Tid>)
    requires
        is_listing(s, set),
    ensures
        set.finite(),
        set.len() == s.len(),
{
    assert forall|i: int, j: int| 0 <= i < s.len() && 0 <= j < s.len() && i != j implies s[i] != s[j] by {
        if i < j {
            assert(s[i].before(s[j]));
        } else {
            assert(s[j].before(s[i]));
        }
    }
    s.unique_seq_to_set();
    vstd::seq_lib::seq_to_set_is_finite(s);
    assert(s.to_set() =~= set) by {
        assert forall|t: Tid| s.to_set().contains(t) <==> set.contains(t) by {
            assert(s.contains(t) <==> set.contains(t));
        }
    }
}

/// Two listings of one set are the same.
pub proof fn lemma_listing_unique(a: Seq<Tid>, b: Seq<Tid>, set: Set<Tid>)
    requires
        is_listing(a, set),
        is_listing(b, set),
    ensures
        a == b,
    decreases a.len(),
{
    lemma_listing_len(a, set);
    lemma_listing_len(b, set);
    if a.len() > 0 {
        let (x, y) = (a.last(), b.last());
        assert(a.contains(x) && b.contains(y));
        assert(b.contains(x) && a.contains(y));
        let i = b.index_of(x);
        let j = a.index_of(y);
        if i < b.len() - 1 {
            assert(b[i].before(y));
        }
        if j < a.len() - 1 {
            assert(a[j].before(x));
        }
        assert(x == y);
        let rest = set.remove(x);
        lemma_drop_last(a, set);
        lemma_drop_last(b, set);
        lemma_listing_unique(a.drop_last(), b.drop_last(), rest);
        assert(a =~= a.drop_last().push(x));
        assert(b =~= b.drop_last().push(x));
    } else {
        assert(a =~= b);
    }
}

proof fn lemma_drop_last(s: Seq<Tid>, set: Set<Tid>)
    requires
        is_listing(s, set),
        s.len() > 0,
    ensures
        is_listing(s.drop_last(), set.remove(s.last())),
{
    let r = s.drop_last();
    assert forall|t: Tid| #[trigger] r.contains(t) <==> set.remove(s.last()).contains(t) by {
        if r.contains(t) {
            let i = r.index_of(t);
            assert(s[i] == t);
            assert(s.contains(t));
            assert(s[i].before(s[s.len() - 1]));
        }
        if set.remove(s.last()).contains(t) {
            assert(s.contains(t));
            let i = s.index_of(t);
            assert(r[i] == t);
        }
    }
}

/// The members of a set in groups below `g`.
spec fn below_group(set: Set<Tid>, g: int) -> Set<Tid> {
    Set::new(|t: Tid| set.contains(t) && t.spec_group() < g)
}

/// `l` lists the members of `set` in group `cur`.
spec fn lists_group(l: Seq<Tid>, set: Set<Tid>, cur: int) -> bool {
    is_listing(l, Set::new(|t: Tid| set.contains(t) && t.spec_group() == cur))
}

/// Adding a group's listing to the listing of the groups before it.
proof fn lemma_append(s: Seq<Tid>, l: Seq<Tid>, set: Set<Tid>, g: int, cur: int)
    requires
        is_listing(s, below_group(set, g)),
        lists_group(l, set, cur),
        g <= cur,
        none_between(set, g, cur),
    ensures
        is_listing(s + l, below_group(set, cur + 1)),
{
    let r = s + l;
    let here = Set::new(|t: Tid| set.contains(t) && t.spec_group() == cur);
    assert forall|i: int, j: int| 0 <= i < j < r.len() implies (#[trigger] r[i]).before(#[trigger] r[j]) by {
        if j < s.len() {
            assert(s[i].before(s[j]));
        } else if i >= s.len() {
            assert(l[i - s.len()].before(l[j - s.len()]));
        } else {
            assert(s.contains(s[i]));
            assert(l.contains(l[j - s.len()]));
            assert(below_group(set, g).contains(s[i]));
            assert(here.contains(l[j - s.len()]));
        }
    }
    assert forall|t: Tid| #[trigger] r.contains(t) <==> below_group(set, cur + 1).contains(t) by {
        if r.contains(t) {
            let i = r.index_of(t);
            if i < s.len() {
                assert(s.contains(s[i]));
                assert(below_group(set, g).contains(t));
            } else {
                assert(l.contains(l[i - s.len()]));
                assert(here.contains(t));
            }
        }
        if below_group(set, cur + 1).contains(t) {
            if t.spec_group() < g {
                assert(s.contains(t));
                let i = s.index_of(t);
                assert(r[i] == t);
            } else {
                assert(here.contains(t));
                assert(l.contains(t));
                let i = l.index_of(t);
                assert(r[s.len() + i] == t);
            }
        }
    }
}

/// Move `c` to the next group from `g` on and fill `buf` with that group's
/// exact tuple bitmap, less the tuples that are not live.
fn next_group(c: &mut Node<'_>, spaces: &SpaceTable, live: Option<&[u64]>, g: u32, buf: &mut Vec<u64>) -> (r: Option<(u32, PageBits)>)
    requires
        old(c).wf(),
        old(c).floor() <= g,
        spaces.wf(),
        spaces.dir() == old(c).model().dir,
    ensures
        final(c).wf(),
        final(c).model() == old(c).model(),
        match r {
            None => none_between(final(c).model().tids, g as int, group_limit()),
            Some((cur, pages)) => {
                let m = final(c).model();
                &&& g <= cur < group_limit()
                &&& final(c).floor() <= cur
                &&& none_between(m.tids, g as int, cur as int)
                &&& final(buf)@.len() == (m.dir.bits(cur as int) + 63) / 64
                &&& forall|x: int| #[trigger] bit(final(buf)@, x) <==> 0 <= x < m.dir.bits(cur as int) && live_tids(m, live).contains(m.dir.tid_at(cur as int, x))
                &&& forall|t: Tid| #[trigger] m.tids.contains(t) && t.spec_group() == cur ==> pages.has(t.spec_page())
            },
        },
{
    let cur: u32 = match c.seek(g) {
        None => {
            return None;
        },
        Some(cur) => cur,
    };
    let ghost m = c.model();
    let ghost d = m.dir;
    let space: GroupSpace<'_> = spaces.group(cur);
    let pages: PageBits = c.pages();
    buf.clear();
    let words: usize = space.words();
    while buf.len() < words
        invariant
            buf@.len() <= words,
            forall|i: int| 0 <= i < buf@.len() ==> #[trigger] buf@[i] == 0,
        decreases words - buf@.len(),
    {
        buf.push(0);
    }
    proof {
        lemma_word_ops(0, 0);
        assert forall|x: int| !#[trigger] bit(buf@, x) by {
            if 0 <= x < buf@.len() * 64 {
                assert(buf@[x / 64] == 0);
            }
        }
        c.lemma_model();
    }
    c.or_into(&pages, &space, buf);
    let ghost full = buf@;
    proof {
        assert forall|x: int| #[trigger] bit(full, x) <==> 0 <= x < d.bits(cur as int) && m.tids.contains(d.tid_at(cur as int, x)) by {
            if 0 <= x < d.bits(cur as int) {
                lemma_tid_at(d, cur as int, x);
            }
        }
    }
    if let Some(words_live) = live {
        // Drop tuples whose liveness bit is clear (deleted by VACUUM).
        let base: u64 = space.base();
        proof {
            lemma_start_mono(d, cur as int, 0, 256);
            if spaces.covers(cur as int) {
                spaces.lemma_small(cur as int);
            }
        }
        let mut i: usize = 0;
        while i < buf.len()
            invariant
                i <= buf@.len(),
                buf@.len() == full.len(),
                full.len() <= 0x4_0000,
                base < 0x1_0000_0000_0000,
                forall|k: int| i <= k < full.len() ==> #[trigger] buf@[k] == full[k],
                forall|k: int, j: int| 0 <= k < i && 0 <= j < 64 ==> #[trigger] word_bit(buf@[k], j) == (word_bit(full[k], j) && bit(words_live@, base + k * 64 + j)),
            decreases buf@.len() - i,
        {
            let w: u64 = buf[i];
            let l: u64 = bits_from(words_live, base + i as u64 * 64);
            proof {
                lemma_word_ops(w, l);
            }
            let ghost was = buf@;
            buf.set(i, w & l);
            proof {
                assert forall|k: int, j: int| 0 <= k < i + 1 && 0 <= j < 64 implies #[trigger] word_bit(buf@[k], j) == (word_bit(full[k], j) && bit(words_live@, base + k * 64 + j)) by {
                    if k < i {
                        assert(word_bit(was[k], j) == (word_bit(full[k], j) && bit(words_live@, base + k * 64 + j)));
                    } else {
                        assert(word_bit(l, j) == bit(words_live@, (base + i * 64) + j));
                    }
                }
            }
            i = i + 1;
        }
        proof {
            assert forall|x: int| #[trigger] bit(buf@, x) <==> 0 <= x < d.bits(cur as int) && live_tids(m, live).contains(d.tid_at(cur as int, x)) by {
                assert(bit(full, x) <==> 0 <= x < d.bits(cur as int) && m.tids.contains(d.tid_at(cur as int, x)));
                if 0 <= x < full.len() * 64 {
                    let (k, j) = (x / 64, x % 64);
                    assert(word_bit(buf@[k], j) == (word_bit(full[k], j) && bit(words_live@, base + k * 64 + j)));
                    if bit(full, x) {
                        let t = d.tid_at(cur as int, x);
                        lemma_tid_at(d, cur as int, x);
                        spaces.lemma_holds_covered(t);
                        assert(cur * 256 + t.spec_page() == t.block);
                        assert(d.tid_bit(t) == base + x);
                    }
                }
            }
        }
    } else {
        proof {
            assert forall|x: int| #[trigger] bit(buf@, x) <==> 0 <= x < d.bits(cur as int) && live_tids(m, live).contains(d.tid_at(cur as int, x)) by {
                assert(bit(full, x) <==> 0 <= x < d.bits(cur as int) && m.tids.contains(d.tid_at(cur as int, x)));
            }
        }
    }
    Some((cur, pages))
}

/// A cursor that was not moved yet, over the pages that `spaces` lays out.
pub open spec fn ready(c: &Node<'_>, spaces: &SpaceTable) -> bool {
    &&& c.wf()
    &&& c.floor() == 0
    &&& spaces.wf()
    &&& spaces.dir() == c.model().dir
}

/// Drive a cursor to completion: every match in tid order. With `live`,
/// matches whose bit in that segment-wide liveness bitmap is clear are
/// skipped.
pub fn for_each_tid(c: &mut Node<'_>, spaces: &SpaceTable, live: Option<&[u64]>) -> (r: Vec<Tid>)
    requires
        ready(old(c), spaces),
    ensures
        is_listing(r@, live_tids(old(c).model(), live)),
{
    let mut out: Vec<Tid> = Vec::new();
    collect_tids(c, spaces, live, &mut out);
    proof {
        let l = choose|l: Seq<Tid>| is_listing(l, live_tids(old(c).model(), live)) && out@ == Seq::<Tid>::empty() + l;
        assert(out@ =~= l);
    }
    out
}

/// Append every match to `out`, in tid order.
pub fn collect_tids(c: &mut Node<'_>, spaces: &SpaceTable, live: Option<&[u64]>, out: &mut Vec<Tid>)
    requires
        ready(old(c), spaces),
    ensures
        exists|l: Seq<Tid>| is_listing(l, live_tids(old(c).model(), live)) && final(out)@ == old(out)@ + l,
{
    let ghost m = c.model();
    let ghost d = m.dir;
    let ghost set = live_tids(m, live);
    let ghost mut list: Seq<Tid> = Seq::empty();
    let mut buf: Vec<u64> = Vec::new();
    let mut g: u32 = 0;
    proof {
        c.lemma_model();
        assert(is_listing(list, below_group(set, 0)));
        assert(out@ =~= old(out)@ + list);
    }
    loop
        invariant
            c.wf(),
            c.model() == m,
            c.floor() <= g,
            m.valid(),
            d == m.dir,
            set == live_tids(m, live),
            old(c).model() == m,
            spaces.wf(),
            spaces.dir() == d,
            g <= group_limit(),
            is_listing(list, below_group(set, g as int)),
            out@ == old(out)@ + list,
        decreases group_limit() - g,
    {
        match next_group(c, spaces, live, g, &mut buf) {
            None => {
                proof {
                    lemma_done(list, m, set, g as int);
                }
                return;
            },
            Some((cur, pages)) => {
                let space: GroupSpace<'_> = spaces.group(cur);
                proof {
                    lemma_start_mono(d, cur as int, 0, 256);
                }
                let found: Vec<(u8, u16)> = space.for_each_tuple(buf.as_slice(), &pages);
                let ghost start = out@;
                proof {
                    lemma_found(m, set, live, cur as int, buf@, pages, found@);
                }
                let mut k: usize = 0;
                while k < found.len()
                    invariant
                        k <= found@.len(),
                        cur < group_limit(),
                        forall|i: int| 0 <= i < found@.len() ==> (#[trigger] found@[i]).1 < 0xFFFF,
                        out@ == start + tids_of(found@, cur as int).take(k as int),
                    decreases found@.len() - k,
                {
                    let (page, b): (u8, u16) = found[k];
                    assert(found@[k as int].1 < 0xFFFF);
                    out.push(Tid::from_parts(cur, page, b));
                    proof {
                        let l = tids_of(found@, cur as int);
                        assert(start + l.take(k + 1) =~= (start + l.take(k as int)).push(l[k as int]));
                    }
                    k = k + 1;
                }
                proof {
                    let l = tids_of(found@, cur as int);
                    assert(l.take(k as int) =~= l);
                    lemma_append(list, l, set, g as int, cur as int);
                    assert(out@ =~= old(out)@ + (list + l));
                    list = list + l;
                }
                g = cur + 1;
            },
        }
    }
}

proof fn lemma_done(list: Seq<Tid>, m: Model, set: Set<Tid>, g: int)
    requires
        is_listing(list, below_group(set, g)),
        none_between(m.tids, g, group_limit()),
        forall|t: Tid| set.contains(t) ==> m.tids.contains(t),
    ensures
        is_listing(list, set),
{
    assert(below_group(set, g) =~= set) by {
        assert forall|t: Tid| set.contains(t) implies t.spec_group() < g by {
            assert(m.tids.contains(t));
            assert(t.spec_group() < group_limit());
        }
    }
}

/// The tids of a group's tuples.
spec fn tids_of(found: Seq<(u8, u16)>, g: int) -> Seq<Tid> {
    found.map_values(|e: (u8, u16)| Tid::at(g, e.0 as int, e.1 as int))
}

/// The tuples found in a group's bitmap list that group.
proof fn lemma_found(m: Model, set: Set<Tid>, live: Option<&[u64]>, g: int, buf: Seq<u64>, pages: PageBits, found: Seq<(u8, u16)>)
    requires
        m.valid(),
        set == live_tids(m, live),
        0 <= g < group_limit(),
        forall|x: int| #[trigger] bit(buf, x) <==> 0 <= x < m.dir.bits(g) && set.contains(m.dir.tid_at(g, x)),
        forall|t: Tid| #[trigger] m.tids.contains(t) && t.spec_group() == g ==> pages.has(t.spec_page()),
        crate::space::tuples_ascend(found),
        forall|p: u8, b: u16| #[trigger] found.contains((p, b)) <==> {
            &&& pages.has(p as int)
            &&& b < m.dir.width(g * 256 + p)
            &&& bit(buf, m.dir.start(g, p as int) + b)
        },
    ensures
        lists_group(tids_of(found, g), set, g),
        forall|i: int| 0 <= i < found.len() ==> (#[trigger] found[i]).1 < 0xFFFF,
{
    let d = m.dir;
    let l = tids_of(found, g);
    let here = Set::new(|t: Tid| set.contains(t) && t.spec_group() == g);
    assert forall|i: int| 0 <= i < found.len() implies (#[trigger] found[i]).1 < 0xFFFF by {
        let e = found[i];
        assert(found.contains((e.0, e.1)));
        lemma_start_step(d, g, e.0 as int);
    }
    assert forall|i: int, j: int| 0 <= i < j < l.len() implies (#[trigger] l[i]).before(#[trigger] l[j]) by {
        let (a, b) = (found[i], found[j]);
        lemma_at(g, a.0 as int, a.1 as int);
        lemma_at(g, b.0 as int, b.1 as int);
    }
    assert forall|t: Tid| #[trigger] l.contains(t) <==> here.contains(t) by {
        if l.contains(t) {
            let i = l.index_of(t);
            let e = found[i];
            assert(found.contains((e.0, e.1)));
            lemma_at(g, e.0 as int, e.1 as int);
            lemma_start_step(d, g, e.0 as int);
            let x = d.start(g, e.0 as int) + e.1;
            lemma_start_mono(d, g, e.0 as int + 1, 256);
            lemma_start_mono(d, g, 0, e.0 as int);
            assert(d.on_page(g, e.0 as int, x));
            crate::space::lemma_on_page(d, g, e.0 as int, x);
            assert(d.tid_at(g, x) == t);
            assert(bit(buf, x));
        }
        if here.contains(t) {
            lemma_slot(d, t);
            assert(m.tids.contains(t));
            let e = (t.spec_page() as u8, t.spec_bit() as u16);
            assert(g * 256 + t.spec_page() == t.block);
            assert(bit(buf, d.slot(t)));
            assert(found.contains((e.0, e.1)));
            let i = found.index_of(e);
            assert(Tid::at(g, t.spec_page(), t.spec_bit()) == t);
            assert(l[i] == t);
        }
    }
}

/// The tuples of the set bits of a group's bitmap.
spec fn tids_at(ones: Seq<int>, d: Widths, g: int) -> Seq<Tid> {
    ones.map_values(|x: int| d.tid_at(g, x))
}

/// The set bits of a group's bitmap list that group.
proof fn lemma_ones(m: Model, set: Set<Tid>, live: Option<&[u64]>, g: int, buf: Seq<u64>)
    requires
        m.valid(),
        set == live_tids(m, live),
        0 <= g < group_limit(),
        buf.len() * 64 >= m.dir.bits(g),
        forall|x: int| #[trigger] bit(buf, x) <==> 0 <= x < m.dir.bits(g) && set.contains(m.dir.tid_at(g, x)),
    ensures
        lists_group(tids_at(ones_of(buf), m.dir, g), set, g),
{
    let d = m.dir;
    let ones = ones_of(buf);
    let l = tids_at(ones, d, g);
    let here = Set::new(|t: Tid| set.contains(t) && t.spec_group() == g);
    words::lemma_ones_below(buf, buf.len() as int * 64);
    assert forall|i: int| 0 <= i < ones.len() implies bit(buf, #[trigger] ones[i]) by {
        assert(ones.contains(ones[i]));
    }
    assert forall|i: int, j: int| 0 <= i < j < l.len() implies (#[trigger] l[i]).before(#[trigger] l[j]) by {
        let (x, y) = (ones[i], ones[j]);
        assert(bit(buf, x) && bit(buf, y));
        lemma_tid_at(d, g, x);
        lemma_tid_at(d, g, y);
        lemma_page_at(d, g, x);
        lemma_page_at(d, g, y);
        let (p, q) = (d.page_at(g, x), d.page_at(g, y));
        if q < p {
            lemma_start_mono(d, g, q + 1, p);
        }
        lemma_start_step(d, g, p);
        lemma_start_step(d, g, q);
        lemma_at(g, p, x - d.start(g, p));
        lemma_at(g, q, y - d.start(g, q));
    }
    assert forall|t: Tid| #[trigger] l.contains(t) <==> here.contains(t) by {
        if l.contains(t) {
            let i = l.index_of(t);
            assert(bit(buf, ones[i]));
            lemma_tid_at(d, g, ones[i]);
        }
        if here.contains(t) {
            lemma_slot(d, t);
            assert(m.tids.contains(t));
            assert(bit(buf, d.slot(t)));
            assert(ones.contains(d.slot(t)));
            let i = ones.index_of(d.slot(t));
            assert(l[i] == t);
        }
    }
}

/// Count matches without materializing tids.
pub fn count(c: &mut Node<'_>, spaces: &SpaceTable, live: Option<&[u64]>) -> (r: u64)
    requires
        ready(old(c), spaces),
    ensures
        live_tids(old(c).model(), live).finite(),
        r == live_tids(old(c).model(), live).len(),
{
    let ghost m = c.model();
    let ghost d = m.dir;
    let ghost set = live_tids(m, live);
    let ghost mut list: Seq<Tid> = Seq::empty();
    let mut buf: Vec<u64> = Vec::new();
    let mut g: u32 = 0;
    let mut n: u64 = 0;
    proof {
        c.lemma_model();
        assert(is_listing(list, below_group(set, 0)));
    }
    loop
        invariant
            c.wf(),
            c.model() == m,
            c.floor() <= g,
            m.valid(),
            d == m.dir,
            set == live_tids(m, live),
            old(c).model() == m,
            spaces.wf(),
            spaces.dir() == d,
            g <= group_limit(),
            is_listing(list, below_group(set, g as int)),
            n == list.len(),
            n <= g * 0x100_0000,
        decreases group_limit() - g,
    {
        match next_group(c, spaces, live, g, &mut buf) {
            None => {
                proof {
                    lemma_done(list, m, set, g as int);
                    lemma_listing_len(list, set);
                }
                return n;
            },
            Some((cur, _pages)) => {
                proof {
                    lemma_start_mono(d, cur as int, 0, 256);
                    lemma_ones(m, set, live, cur as int, buf@);
                    let l = tids_at(ones_of(buf@), d, cur as int);
                    lemma_append(list, l, set, g as int, cur as int);
                    list = list + l;
                }
                let len: usize = buf.len();
                assert(len <= 0x4_0000);
                let k: u64 = words::count(buf.as_slice());
                n = n + k;
                g = cur + 1;
            },
        }
    }
}

} // verus!
