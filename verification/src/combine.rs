//! The cursors that combine others: intersection, union, difference, and the
//! cursor over a whole segment's bitmap.

use std::ops::Not;
use vstd::prelude::*;
use crate::bitmap::PageBits;
use crate::cursor::{group_limit, hit, lemma_hit, none_between, Cursor, Model};
use crate::leaf::{GroupsCursor, SingletonCursor, SparseCursor};
use crate::space::{lemma_below_mono, lemma_page_at, lemma_slot, lemma_start_mono, lemma_tid_at, GroupSpace, SpaceTable, Widths};
use crate::stream::{bits_at, bits_from, or_word};
use crate::tid::Tid;
use crate::words;
use crate::words::{bit, lemma_word_ops, lemma_word_shift, ones_of, word_bit};

verus! {

/// A cursor of any kind.
pub enum Node<'a> {
    Empty(Empty),
    Singleton(SingletonCursor),
    Sparse(SparseCursor<'a>),
    Groups(GroupsCursor<'a>),
    Bits(Bits<'a>),
    And(Box<And<'a>>),
    Or(Box<Or<'a>>),
    AndNot(Box<AndNot<'a>>),
}

impl<'a> Cursor for Node<'a> {
    closed spec fn wf(&self) -> bool
        decreases self, 1nat,
    {
        match self {
            Node::Empty(c) => c.wf(),
            Node::Singleton(c) => c.wf(),
            Node::Sparse(c) => c.wf(),
            Node::Groups(c) => c.wf(),
            Node::Bits(c) => c.wf(),
            Node::And(c) => c.wf(),
            Node::Or(c) => c.wf(),
            Node::AndNot(c) => c.wf(),
        }
    }

    closed spec fn model(&self) -> Model {
        match self {
            Node::Empty(c) => c.model(),
            Node::Singleton(c) => c.model(),
            Node::Sparse(c) => c.model(),
            Node::Groups(c) => c.model(),
            Node::Bits(c) => c.model(),
            Node::And(c) => c.model(),
            Node::Or(c) => c.model(),
            Node::AndNot(c) => c.model(),
        }
    }

    closed spec fn floor(&self) -> int
        decreases self,
    {
        match self {
            Node::Empty(c) => c.floor(),
            Node::Singleton(c) => c.floor(),
            Node::Sparse(c) => c.floor(),
            Node::Groups(c) => c.floor(),
            Node::Bits(c) => c.floor(),
            Node::And(c) => c.floor(),
            Node::Or(c) => c.floor(),
            Node::AndNot(c) => c.floor(),
        }
    }

    closed spec fn at(&self) -> Option<u32>
        decreases self,
    {
        match self {
            Node::Empty(c) => c.at(),
            Node::Singleton(c) => c.at(),
            Node::Sparse(c) => c.at(),
            Node::Groups(c) => c.at(),
            Node::Bits(c) => c.at(),
            Node::And(c) => c.at(),
            Node::Or(c) => c.at(),
            Node::AndNot(c) => c.at(),
        }
    }

    proof fn lemma_model(&self)
        decreases self,
    {
        match self {
            Node::Empty(c) => c.lemma_model(),
            Node::Singleton(c) => c.lemma_model(),
            Node::Sparse(c) => c.lemma_model(),
            Node::Groups(c) => c.lemma_model(),
            Node::Bits(c) => c.lemma_model(),
            Node::And(c) => c.lemma_model(),
            Node::Or(c) => c.lemma_model(),
            Node::AndNot(c) => c.lemma_model(),
        }
    }

    fn seek(&mut self, target: u32) -> (r: Option<u32>)
        decreases old(self).model().height, 2nat,
    {
        match self {
            Node::Empty(c) => c.seek(target),
            Node::Singleton(c) => c.seek(target),
            Node::Sparse(c) => c.seek(target),
            Node::Groups(c) => c.seek(target),
            Node::Bits(c) => c.seek(target),
            Node::And(c) => c.seek(target),
            Node::Or(c) => c.seek(target),
            Node::AndNot(c) => c.seek(target),
        }
    }

    fn pages(&mut self) -> (r: PageBits)
        decreases old(self).model().height, 2nat,
    {
        match self {
            Node::Empty(c) => c.pages(),
            Node::Singleton(c) => c.pages(),
            Node::Sparse(c) => c.pages(),
            Node::Groups(c) => c.pages(),
            Node::Bits(c) => c.pages(),
            Node::And(c) => c.pages(),
            Node::Or(c) => c.pages(),
            Node::AndNot(c) => c.pages(),
        }
    }

    fn or_into(&mut self, mask: &PageBits, space: &GroupSpace<'_>, out: &mut Vec<u64>)
        decreases old(self).model().height, 2nat,
    {
        match self {
            Node::Empty(c) => c.or_into(mask, space, out),
            Node::Singleton(c) => c.or_into(mask, space, out),
            Node::Sparse(c) => c.or_into(mask, space, out),
            Node::Groups(c) => c.or_into(mask, space, out),
            Node::Bits(c) => c.or_into(mask, space, out),
            Node::And(c) => c.or_into(mask, space, out),
            Node::Or(c) => c.or_into(mask, space, out),
            Node::AndNot(c) => c.or_into(mask, space, out),
        }
    }

    fn cost(&self) -> (r: u64)
        decreases self.model().height, 2nat,
    {
        match self {
            Node::Empty(c) => c.cost(),
            Node::Singleton(c) => c.cost(),
            Node::Sparse(c) => c.cost(),
            Node::Groups(c) => c.cost(),
            Node::Bits(c) => c.cost(),
            Node::And(c) => c.cost(),
            Node::Or(c) => c.cost(),
            Node::AndNot(c) => c.cost(),
        }
    }
}

/// A node stands for the cursor it holds.
pub proof fn lemma_node(n: Node)
    ensures
        match n {
            Node::Empty(c) => stands_for(n, c),
            Node::Singleton(c) => stands_for(n, c),
            Node::Sparse(c) => stands_for(n, c),
            Node::Groups(c) => stands_for(n, c),
            Node::Bits(c) => stands_for(n, c),
            Node::And(c) => stands_for(n, *c),
            Node::Or(c) => stands_for(n, *c),
            Node::AndNot(c) => stands_for(n, *c),
        },
{
}

/// The same set of tids at the same position.
pub open spec fn stands_for<C: Cursor>(n: Node, c: C) -> bool {
    &&& n.wf() == c.wf()
    &&& n.model() == c.model()
    &&& n.floor() == c.floor()
    &&& n.at() == c.at()
}

/// Matches nothing (a term missing from the segment).
pub struct Empty {
    dir: Ghost<Widths>,
    floor: Ghost<int>,
}

impl Empty {
    pub fn new(Ghost(dir): Ghost<Widths>) -> (r: Self)
        requires
            dir.valid(),
        ensures
            r.wf(),
            r.model().dir == dir,
            r.model().tids == Set::<Tid>::empty(),
            r.model().cost == 0,
            r.floor() == 0,
            r.at() is None,
    {
        Empty { dir: Ghost(dir), floor: Ghost(0) }
    }
}

impl Cursor for Empty {
    closed spec fn wf(&self) -> bool {
        self.dir@.valid()
    }

    closed spec fn model(&self) -> Model {
        Model { dir: self.dir@, tids: Set::empty(), cost: 0, height: 0 }
    }

    closed spec fn floor(&self) -> int {
        self.floor@
    }

    closed spec fn at(&self) -> Option<u32> {
        None
    }

    proof fn lemma_model(&self) {
    }

    fn seek(&mut self, target: u32) -> (r: Option<u32>) {
        self.floor = Ghost(target as int);
        None
    }

    fn pages(&mut self) -> (r: PageBits) {
        PageBits::zero()
    }

    fn or_into(&mut self, mask: &PageBits, space: &GroupSpace<'_>, out: &mut Vec<u64>) {
    }

    fn cost(&self) -> (r: u64) {
        0
    }
}

/// Make `buf` at least `words` long and clear its words `lo..hi`. Words
/// outside that range hold whatever they held.
fn zeroed(buf: &mut Vec<u64>, words: usize, lo: usize, hi: usize)
    requires
        lo <= hi <= words,
    ensures
        final(buf)@.len() >= words,
        forall|x: int| lo * 64 <= x < hi * 64 ==> !#[trigger] bit(final(buf)@, x),
{
    while buf.len() < words
        decreases words - buf@.len(),
    {
        buf.push(0);
    }
    let mut i: usize = lo;
    while i < hi
        invariant
            lo <= i <= hi <= words <= buf@.len(),
            forall|k: int| lo <= k < i ==> #[trigger] buf@[k] == 0,
        decreases hi - i,
    {
        buf.set(i, 0);
        i = i + 1;
    }
    proof {
        lemma_word_ops(0, 0);
        assert forall|x: int| lo * 64 <= x < hi * 64 implies !#[trigger] bit(buf@, x) by {
            assert(buf@[x / 64] == 0);
        }
    }
}

/// Intersection. Leapfrogs on group ids, then ANDs page bitmaps and skips any
/// group whose page intersection is empty without touching tuple data.
pub struct And<'a> {
    children: Vec<Node<'a>>,
    cur: Option<u32>,
    /// No group is left.
    done: bool,
    pages: PageBits,
    acc: Vec<u64>,
    tmp: Vec<u64>,
    m: Ghost<Model>,
    floor: Ghost<int>,
}

/// A match of every child.
pub open spec fn in_all(c: Seq<Node>, t: Tid) -> bool {
    forall|i: int| 0 <= i < c.len() ==> (#[trigger] c[i]).model().tids.contains(t)
}

/// A match of some child.
pub open spec fn in_any(c: Seq<Node>, t: Tid) -> bool {
    exists|i: int| 0 <= i < c.len() && (#[trigger] c[i]).model().tids.contains(t)
}

/// Nested under a node of the model `m`, over the same pages.
spec fn fits_under(c: Node, m: Model) -> bool
    decreases c, 2nat,
{
    &&& c.wf()
    &&& c.model().dir == m.dir
    &&& c.model().height < m.height
}

/// A cursor that was not moved yet.
pub open spec fn fresh(c: Node, dir: Widths) -> bool {
    &&& c.wf()
    &&& c.model().dir == dir
    &&& c.floor() == 0
    &&& c.at() is None
}

/// The largest height.
spec fn tallest(c: Seq<Node>) -> nat
    decreases c.len(),
{
    if c.len() == 0 {
        0
    } else {
        let rest = tallest(c.drop_last());
        if c.last().model().height > rest {
            c.last().model().height
        } else {
            rest
        }
    }
}

proof fn lemma_tallest(c: Seq<Node>)
    ensures
        forall|i: int| 0 <= i < c.len() ==> (#[trigger] c[i]).model().height <= tallest(c),
    decreases c.len(),
{
    if c.len() > 0 {
        let d = c.drop_last();
        lemma_tallest(d);
        assert forall|i: int| 0 <= i < c.len() implies (#[trigger] c[i]).model().height <= tallest(c) by {
            if i < d.len() {
                assert(d[i] == c[i]);
            }
        }
    }
}

impl<'a> And<'a> {
    /// The children, whatever their position.
    spec fn parts_ok(&self) -> bool
        decreases self, 0nat,
    {
        let c = self.children@;
        &&& c.len() >= 1
        &&& self.m@.dir.valid()
        &&& forall|i: int| 0 <= i < c.len() ==> fits_under(#[trigger] c[i], self.m@)
        &&& forall|t: Tid| #[trigger] self.m@.tids.contains(t) <==> in_all(c, t)
        &&& self.m@.cost == c[0].model().cost
    }

    /// Every child may be asked for `g`.
    spec fn floors_ok(&self, g: int) -> bool {
        forall|i: int| 0 <= i < self.children@.len() ==> (#[trigger] self.children@[i]).floor() <= g
    }

    /// The intersection of `children`, which evaluates the cheapest first.
    pub fn new(children: Vec<Node<'a>>) -> (r: Self)
        requires
            children@.len() >= 1,
            forall|i: int| 0 <= i < children@.len() ==> fresh(#[trigger] children@[i], children@[0].model().dir),
        ensures
            r.wf(),
            r.floor() == 0,
            r.at() is None,
            r.model().dir == children@[0].model().dir,
            forall|t: Tid| #[trigger] r.model().tids.contains(t) <==> in_all(children@, t),
            forall|i: int| 0 <= i < children@.len() ==> r.model().cost <= (#[trigger] children@[i]).model().cost,
            exists|i: int| 0 <= i < children@.len() && r.model().cost == (#[trigger] children@[i]).model().cost,
    {
        let ghost all = children@;
        let ghost dir = children@[0].model().dir;
        let ghost height = tallest(all) + 1;
        proof {
            lemma_tallest(all);
            assert(fresh(all[0], dir));
            all[0].lemma_model();
        }
        let mut rest: Vec<Node<'a>> = children;
        let mut sorted: Vec<Node<'a>> = Vec::new();
        while rest.len() > 0
            invariant
                all.len() >= 1,
                sorted@.len() + rest@.len() == all.len(),
                rest@ == all.skip(sorted@.len() as int),
                forall|i: int| 0 <= i < all.len() ==> fresh(#[trigger] all[i], dir) && all[i].model().height < height,
                forall|i: int| 0 <= i < sorted@.len() ==> fresh(#[trigger] sorted@[i], dir) && sorted@[i].model().height < height,
                forall|i: int, j: int| 0 <= i < j < sorted@.len() ==> (#[trigger] sorted@[i]).model().cost <= (#[trigger] sorted@[j]).model().cost,
                forall|i: int| 0 <= i < sorted@.len() ==> exists|k: int| 0 <= k < all.len() && #[trigger] all[k] == #[trigger] sorted@[i],
                forall|k: int| 0 <= k < all.len() - rest@.len() ==> exists|i: int| 0 <= i < sorted@.len() && #[trigger] sorted@[i] == #[trigger] all[k],
            decreases rest@.len(),
        {
            let ghost n = sorted@.len() as int;
            let ghost was = sorted@;
            let c: Node<'a> = rest.remove(0);
            proof {
                assert(c == all[n]);
                assert(rest@ =~= all.skip(n + 1));
                assert(fresh(all[n], dir));
            }
            let cost: u64 = c.cost();
            let mut at: usize = sorted.len();
            while at > 0 && sorted[at - 1].cost() > cost
                invariant
                    at <= sorted@.len(),
                    forall|i: int| 0 <= i < sorted@.len() ==> fresh(#[trigger] sorted@[i], dir) && sorted@[i].model().height < height,
                    forall|i: int| at <= i < sorted@.len() ==> (#[trigger] sorted@[i]).model().cost > cost,
                decreases at,
            {
                at = at - 1;
            }
            sorted.insert(at, c);
            proof {
                let a = at as int;
                assert forall|i: int| 0 <= i < sorted@.len() implies exists|k: int| 0 <= k < all.len() && #[trigger] all[k] == #[trigger] sorted@[i] by {
                    if i < a {
                        assert(sorted@[i] == was[i]);
                    } else if i > a {
                        assert(sorted@[i] == was[i - 1]);
                    } else {
                        assert(all[n] == sorted@[i]);
                    }
                }
                assert forall|k: int| 0 <= k < n + 1 implies exists|i: int| 0 <= i < sorted@.len() && #[trigger] sorted@[i] == #[trigger] all[k] by {
                    if k < n {
                        let i = choose|i: int| 0 <= i < was.len() && #[trigger] was[i] == all[k];
                        if i < a {
                            assert(sorted@[i] == all[k]);
                        } else {
                            assert(sorted@[i + 1] == all[k]);
                        }
                    } else {
                        assert(sorted@[a] == all[k]);
                    }
                }
                assert forall|i: int, j: int| 0 <= i < j < sorted@.len() implies (#[trigger] sorted@[i]).model().cost <= (#[trigger] sorted@[j]).model().cost by {
                    let oi = if i < a { i } else { i - 1 };
                    let oj = if j < a { j } else { j - 1 };
                    if i != a && j != a {
                        assert(was[oi].model().cost <= was[oj].model().cost);
                    }
                    if j == a && a > 0 {
                        assert(was[a - 1].model().cost <= cost);
                        if i < a - 1 {
                            assert(was[i].model().cost <= was[a - 1].model().cost);
                        }
                    }
                }
            }
        }
        let ghost m = Model { dir, tids: Set::new(|t: Tid| in_all(all, t)), cost: sorted@[0].model().cost, height };
        proof {
            assert forall|t: Tid| in_all(all, t) <==> in_all(sorted@, t) by {
                if in_all(all, t) {
                    assert forall|i: int| 0 <= i < sorted@.len() implies (#[trigger] sorted@[i]).model().tids.contains(t) by {
                        let k = choose|k: int| 0 <= k < all.len() && #[trigger] all[k] == sorted@[i];
                        assert(all[k].model().tids.contains(t));
                    }
                }
                if in_all(sorted@, t) {
                    assert forall|k: int| 0 <= k < all.len() implies (#[trigger] all[k]).model().tids.contains(t) by {
                        let i = choose|i: int| 0 <= i < sorted@.len() && #[trigger] sorted@[i] == all[k];
                        assert(sorted@[i].model().tids.contains(t));
                    }
                }
            }
            assert forall|k: int| 0 <= k < all.len() implies m.cost <= (#[trigger] all[k]).model().cost by {
                let i = choose|i: int| 0 <= i < sorted@.len() && #[trigger] sorted@[i] == all[k];
                if i > 0 {
                    assert(sorted@[0].model().cost <= sorted@[i].model().cost);
                }
            }
            let k = choose|k: int| 0 <= k < all.len() && #[trigger] all[k] == sorted@[0];
            assert(m.cost == all[k].model().cost);
            assert forall|i: int| 0 <= i < sorted@.len() implies fits_under(#[trigger] sorted@[i], m) by {
                assert(fresh(sorted@[i], dir));
            }
        }
        And {
            children: sorted,
            cur: None,
            done: false,
            pages: PageBits::zero(),
            acc: Vec::new(),
            tmp: Vec::new(),
            m: Ghost(m),
            floor: Ghost(0),
        }
    }
}

/// The children stand for the same sets as before.
spec fn same_models(a: Seq<Node>, b: Seq<Node>) -> bool {
    &&& a.len() == b.len()
    &&& forall|i: int| 0 <= i < a.len() ==> (#[trigger] a[i]).model() == b[i].model()
}

proof fn lemma_same_models(a: Seq<Node>, b: Seq<Node>)
    requires
        same_models(a, b),
    ensures
        forall|t: Tid| in_all(a, t) == in_all(b, t),
        forall|t: Tid| in_any(a, t) == in_any(b, t),
{
    assert forall|t: Tid| in_all(a, t) == in_all(b, t) by {
        if in_all(a, t) {
            assert forall|i: int| 0 <= i < b.len() implies (#[trigger] b[i]).model().tids.contains(t) by {
                assert(a[i].model().tids.contains(t));
            }
        }
    }
    assert forall|t: Tid| in_any(a, t) == in_any(b, t) by {
        if in_any(a, t) {
            let i = choose|i: int| 0 <= i < a.len() && (#[trigger] a[i]).model().tids.contains(t);
            assert(b[i].model().tids.contains(t));
        }
        if in_any(b, t) {
            let i = choose|i: int| 0 <= i < b.len() && (#[trigger] b[i]).model().tids.contains(t);
            assert(a[i].model().tids.contains(t));
        }
    }
}

impl<'a> And<'a> {
    /// Every child sits on the current group.
    spec fn on_group(&self, g: u32) -> bool {
        forall|i: int| 0 <= i < self.children@.len() ==> (#[trigger] self.children@[i]).at() == Some(g)
    }

    /// The candidate pages hold every match of the current group.
    spec fn pages_cover(&self, g: u32) -> bool {
        forall|t: Tid| #[trigger] self.m@.tids.contains(t) && t.spec_group() == g ==> self.pages.has(t.spec_page())
    }

    /// Everything but the children's positions is the same.
    spec fn same_but_children(&self, o: &Self) -> bool {
        &&& self.m == o.m
        &&& self.floor == o.floor
        &&& self.cur == o.cur
        &&& self.done == o.done
        &&& self.pages == o.pages
        &&& same_models(self.children@, o.children@)
    }

    /// Ask every child for `g`, in order, until one is past it. Returns the
    /// group that one is on, `g` if all are on `g`, `None` if one has no group
    /// left.
    fn align(&mut self, g: u32) -> (r: Option<u32>)
        requires
            old(self).parts_ok(),
            old(self).floors_ok(g as int),
        ensures
            final(self).parts_ok(),
            final(self).same_but_children(old(self)),
            final(self).floors_ok(g as int),
            match r {
                None => none_between(final(self).m@.tids, g as int, group_limit()),
                Some(n) => {
                    &&& g <= n < group_limit()
                    &&& none_between(final(self).m@.tids, g as int, n as int)
                    &&& n == g ==> final(self).on_group(g)
                },
            },
        decreases old(self).m@.height, 0nat,
    {
        let n: usize = self.children.len();
        let mut i: usize = 0;
        while i < n
            invariant
                n == self.children@.len(),
                n == old(self).children@.len(),
                i <= n,
                self.parts_ok(),
                self.same_but_children(old(self)),
                self.floors_ok(g as int),
                i > 0 ==> g < group_limit(),
                forall|k: int| 0 <= k < i ==> (#[trigger] self.children@[k]).at() == Some(g),
            decreases n - i,
        {
            let ghost before = *self;
            assert(fits_under(self.children@[i as int], self.m@));
            assert(self.children@[i as int].floor() <= g);
            let got: Option<u32> = self.children[i].seek(g);
            proof {
                let ii = i as int;
                assert(self.children@ == before.children@.update(ii, self.children@[ii]));
                assert forall|k: int| 0 <= k < n implies fits_under(#[trigger] self.children@[k], self.m@) by {
                    assert(fits_under(before.children@[k], before.m@));
                }
                assert forall|k: int| 0 <= k < n implies (#[trigger] self.children@[k]).floor() <= g by {
                    assert(before.children@[k].floor() <= g);
                }
                assert forall|k: int| 0 <= k < n implies (#[trigger] self.children@[k]).model() == old(self).children@[k].model() by {
                    assert(before.children@[k].model() == old(self).children@[k].model());
                }
                assert forall|k: int| 0 <= k < ii implies (#[trigger] self.children@[k]).at() == Some(g) by {
                    assert(before.children@[k].at() == Some(g));
                }
                lemma_same_models(self.children@, old(self).children@);
                assert forall|t: Tid| #[trigger] self.m@.tids.contains(t) implies self.children@[ii].model().tids.contains(t) by {
                    assert(in_all(self.children@, t));
                }
            }
            match got {
                None => {
                    return None;
                },
                Some(cg) => {
                    if cg > g {
                        return Some(cg);
                    }
                },
            }
            i = i + 1;
        }
        proof {
            assert(self.children@[0].at() == Some(g));
        }
        Some(g)
    }

    /// The pages that every child has a candidate on.
    fn common_pages(&mut self, g: u32) -> (r: PageBits)
        requires
            old(self).parts_ok(),
            old(self).on_group(g),
            old(self).floors_ok(g as int),
        ensures
            final(self).parts_ok(),
            final(self).same_but_children(old(self)),
            final(self).floors_ok(g as int),
            final(self).on_group(g),
            forall|t: Tid| #[trigger] final(self).m@.tids.contains(t) && t.spec_group() == g ==> r.has(t.spec_page()),
        decreases old(self).m@.height, 0nat,
    {
        let n: usize = self.children.len();
        let mut pages: PageBits = PageBits::zero().not();
        let mut i: usize = 0;
        while i < n
            invariant
                n == self.children@.len(),
                n == old(self).children@.len(),
                i <= n,
                self.parts_ok(),
                self.same_but_children(old(self)),
                self.floors_ok(g as int),
                self.on_group(g),
                forall|t: Tid| #[trigger] self.m@.tids.contains(t) && t.spec_group() == g ==> pages.has(t.spec_page()),
            decreases n - i,
        {
            let ghost before = *self;
            assert(fits_under(self.children@[i as int], self.m@));
            assert(self.children@[i as int].at() == Some(g));
            let got: PageBits = self.children[i].pages();
            proof {
                let ii = i as int;
                assert(self.children@ == before.children@.update(ii, self.children@[ii]));
                assert forall|k: int| 0 <= k < n implies fits_under(#[trigger] self.children@[k], self.m@) by {
                    assert(fits_under(before.children@[k], before.m@));
                }
                assert forall|k: int| 0 <= k < n implies (#[trigger] self.children@[k]).floor() <= g by {
                    assert(before.children@[k].floor() <= g);
                }
                assert forall|k: int| 0 <= k < n implies (#[trigger] self.children@[k]).at() == Some(g) by {
                    assert(before.children@[k].at() == Some(g));
                }
                assert forall|k: int| 0 <= k < n implies (#[trigger] self.children@[k]).model() == old(self).children@[k].model() by {
                    assert(before.children@[k].model() == old(self).children@[k].model());
                }
                lemma_same_models(self.children@, old(self).children@);
                assert forall|t: Tid| #[trigger] self.m@.tids.contains(t) implies self.children@[ii].model().tids.contains(t) by {
                    assert(in_all(self.children@, t));
                }
            }
            pages = pages & got;
            if pages.is_zero() {
                return pages;
            }
            i = i + 1;
        }
        pages
    }
}

impl<'a> Cursor for And<'a> {
    closed spec fn wf(&self) -> bool
        decreases self, 1nat,
    {
        &&& self.parts_ok()
        &&& match self.cur {
            Some(g) => {
                &&& !self.done
                &&& g < group_limit()
                &&& self.on_group(g)
                &&& self.floors_ok(g as int)
                &&& self.pages_cover(g)
                &&& none_between(self.m@.tids, self.floor@, g as int)
            },
            None => if self.done {
                none_between(self.m@.tids, self.floor@, group_limit())
            } else {
                self.floors_ok(self.floor@)
            },
        }
    }

    closed spec fn model(&self) -> Model {
        self.m@
    }

    closed spec fn floor(&self) -> int {
        self.floor@
    }

    closed spec fn at(&self) -> Option<u32> {
        self.cur
    }

    proof fn lemma_model(&self)
        decreases self,
    {
        let c = self.children@[0];
        assert(fits_under(c, self.m@));
        c.lemma_model();
        assert forall|t: Tid| #[trigger] self.m@.tids.contains(t) implies self.m@.dir.holds(t) by {
            assert(in_all(self.children@, t));
            assert(c.model().tids.contains(t));
        }
    }

    fn seek(&mut self, target: u32) -> (r: Option<u32>)
        decreases old(self).model().height, 1nat,
    {
        if let Some(g) = self.cur {
            if g >= target {
                return Some(g);
            }
        }
        let ghost m = self.m@;
        self.floor = Ghost(target as int);
        self.cur = None;
        if self.done {
            return None;
        }
        let mut g: u32 = target;
        loop
            invariant
                self.parts_ok(),
                self.m@ == m,
                m == old(self).m@,
                old(self).cur is Some ==> old(self).cur->0 < target,
                self.floor@ == target,
                self.cur is None,
                !self.done,
                target <= g,
                self.floors_ok(g as int),
                none_between(m.tids, target as int, g as int),
            decreases (if g < group_limit() { group_limit() - g } else { 0 }),
        {
            match self.align(g) {
                None => {
                    self.done = true;
                    return None;
                },
                Some(n) => {
                    if n > g {
                        proof {
                            assert forall|i: int| 0 <= i < self.children@.len() implies (#[trigger] self.children@[i]).floor() <= n by {
                                assert(self.children@[i].floor() <= g);
                            }
                        }
                        g = n;
                        continue;
                    }
                },
            }
            // Every child is on group g: prune at page level.
            let pages: PageBits = self.common_pages(g);
            if pages.is_zero() {
                proof {
                    assert forall|i: int| 0 <= i < self.children@.len() implies (#[trigger] self.children@[i]).floor() <= g + 1 by {
                        assert(self.children@[i].floor() <= g);
                    }
                }
                g = g + 1;
                continue;
            }
            self.cur = Some(g);
            self.pages = pages;
            return Some(g);
        }
    }

    fn pages(&mut self) -> (r: PageBits) {
        self.pages
    }

    fn or_into(&mut self, mask: &PageBits, space: &GroupSpace<'_>, out: &mut Vec<u64>)
        decreases old(self).model().height, 1nat,
    {
        let both: PageBits = *mask & self.pages;
        let ghost m = self.m@;
        let ghost g = space.group();
        let ghost gg = self.cur->0;
        let ghost c0 = self.children@;
        let ghost out0 = out@;
        proof {
            self.lemma_model();
            assert forall|x: int| hit(m, g, *mask, x) == hit(m, g, both, x) by {
                lemma_hit(m, g, *mask, x);
                lemma_hit(m, g, both, x);
            }
        }
        if both.is_zero() {
            return;
        }
        let (lo, hi): (usize, usize) = space.word_range(&both);
        let n: usize = self.children.len();
        let words: usize = space.words();
        proof {
            assert forall|k: int| 0 <= k < n implies (#[trigger] c0[k]).model().dir == m.dir by {
                assert(fits_under(c0[k], m));
            }
        }
        let mut acc: Vec<u64> = Vec::new();
        std::mem::swap(&mut acc, &mut self.acc);
        let mut tmp: Vec<u64> = Vec::new();
        std::mem::swap(&mut tmp, &mut self.tmp);
        zeroed(&mut acc, words, lo, hi);
        let mut i: usize = 0;
        while i < n
            invariant
                n == self.children@.len(),
                n == c0.len(),
                n >= 1,
                i <= n,
                m.valid(),
                0 <= g < group_limit(),
                m == self.m@,
                g == gg,
                old(self).m@ == m,
                old(self).cur == Some(gg),
                old(self).floor == self.floor,
                self.cur == Some(gg),
                self.wf(),
                space.wf(),
                space.dir() == m.dir,
                space.group() == g,
                words == space.spec_words(),
                lo <= hi <= words,
                acc@.len() >= words,
                out@ == out0,
                old(out)@ == out0,
                out0.len() >= words,
                same_models(self.children@, c0),
                forall|t: Tid| #[trigger] m.tids.contains(t) <==> in_all(c0, t),
                forall|k: int| 0 <= k < n ==> (#[trigger] c0[k]).model().dir == m.dir,
                forall|x: int| hit(m, g, *mask, x) == hit(m, g, both, x),
                forall|x: int| 0 <= x < m.dir.bits(g) && #[trigger] both.has(m.dir.page_at(g, x)) ==> lo * 64 <= x < hi * 64,
                forall|x: int| lo * 64 <= x < hi * 64 ==> #[trigger] bit(acc@, x) == hit_first(c0, i as int, m, g, both, x),
            decreases n - i,
        {
            let ghost before = *self;
            let ghost a0 = acc@;
            let ghost ii = i as int;
            assert(fits_under(self.children@[ii], self.m@));
            assert(self.children@[ii].at() == Some(gg));
            if i == 0 {
                self.children[0].or_into(&both, space, &mut acc);
            } else {
                zeroed(&mut tmp, words, lo, hi);
                self.children[i].or_into(&both, space, &mut tmp);
            }
            proof {
                assert(self.children@ == before.children@.update(ii, self.children@[ii]));
                assert forall|k: int| 0 <= k < n implies fits_under(#[trigger] self.children@[k], self.m@) by {
                    assert(fits_under(before.children@[k], before.m@));
                }
                assert forall|k: int| 0 <= k < n implies (#[trigger] self.children@[k]).floor() <= gg by {
                    assert(before.children@[k].floor() <= gg);
                }
                assert forall|k: int| 0 <= k < n implies (#[trigger] self.children@[k]).at() == Some(gg) by {
                    assert(before.children@[k].at() == Some(gg));
                }
                assert forall|k: int| 0 <= k < n implies (#[trigger] self.children@[k]).model() == c0[k].model() by {
                    assert(before.children@[k].model() == c0[k].model());
                }
                lemma_same_models(self.children@, c0);
                assert(self.wf());
            }
            if i == 0 {
                proof {
                    assert forall|x: int| lo * 64 <= x < hi * 64 implies #[trigger] bit(acc@, x) == hit_first(c0, 1, m, g, both, x) by {
                        lemma_hit_first(c0, 0, m, g, both, x);
                        assert(bit(acc@, x) == (bit(a0, x) || hit(c0[0].model(), g, both, x)));
                    }
                }
            } else {
                let any: bool = and_words(&mut acc, &tmp, lo, hi);
                proof {
                    assert forall|x: int| lo * 64 <= x < hi * 64 implies #[trigger] bit(acc@, x) == hit_first(c0, ii + 1, m, g, both, x) by {
                        lemma_hit_first(c0, ii, m, g, both, x);
                        assert(bit(tmp@, x) == hit(c0[ii].model(), g, both, x));
                    }
                }
                if !any {
                    proof {
                        assert forall|x: int| !hit(m, g, both, x) by {
                            if hit(m, g, both, x) {
                                lemma_hit_all(c0, m, g, both, x);
                                assert(both.has(m.dir.page_at(g, x)));
                                assert(bit(acc@, x));
                            }
                        }
                    }
                    self.acc = acc;
                    self.tmp = tmp;
                    return;
                }
            }
            i = i + 1;
        }
        or_words(out, &acc, lo, hi);
        proof {
            assert forall|x: int| #[trigger] bit(out@, x) == (bit(out0, x) || hit(m, g, *mask, x)) by {
                lemma_hit_all(c0, m, g, both, x);
                if lo * 64 <= x < hi * 64 {
                    assert(bit(acc@, x) == hit_first(c0, n as int, m, g, both, x));
                }
                if hit(m, g, both, x) {
                    assert(both.has(m.dir.page_at(g, x)));
                }
            }
        }
        self.acc = acc;
        self.tmp = tmp;
    }

    fn cost(&self) -> (r: u64)
        decreases self.model().height, 1nat,
    {
        assert(fits_under(self.children@[0], self.m@));
        self.children[0].cost()
    }
}

/// A bit that the first `n` children all hit (bits are clear while `n` is 0).
spec fn hit_first(c: Seq<Node>, n: int, m: Model, g: int, mask: PageBits, x: int) -> bool {
    n > 0 && forall|i: int| 0 <= i < n ==> hit((#[trigger] c[i]).model(), g, mask, x)
}

proof fn lemma_hit_first(c: Seq<Node>, n: int, m: Model, g: int, mask: PageBits, x: int)
    requires
        0 <= n < c.len(),
    ensures
        hit_first(c, n + 1, m, g, mask, x) == ((n == 0 || hit_first(c, n, m, g, mask, x)) && hit(c[n].model(), g, mask, x)),
{
    if hit_first(c, n + 1, m, g, mask, x) {
        assert(hit(c[n].model(), g, mask, x));
    }
}

/// What every child hits, the intersection hits.
proof fn lemma_hit_all(c: Seq<Node>, m: Model, g: int, mask: PageBits, x: int)
    requires
        c.len() >= 1,
        forall|i: int| 0 <= i < c.len() ==> (#[trigger] c[i]).model().dir == m.dir,
        forall|t: Tid| #[trigger] m.tids.contains(t) <==> in_all(c, t),
    ensures
        hit_first(c, c.len() as int, m, g, mask, x) == hit(m, g, mask, x),
{
    let t = m.dir.tid_at(g, x);
    assert(m.tids.contains(t) <==> in_all(c, t));
    if hit_first(c, c.len() as int, m, g, mask, x) {
        assert(hit(c[0].model(), g, mask, x));
        assert forall|i: int| 0 <= i < c.len() implies (#[trigger] c[i]).model().tids.contains(t) by {
            assert(hit(c[i].model(), g, mask, x));
        }
    }
    if hit(m, g, mask, x) {
        assert forall|i: int| 0 <= i < c.len() implies hit((#[trigger] c[i]).model(), g, mask, x) by {
            assert(c[i].model().tids.contains(t));
        }
    }
}

/// AND words `lo..hi` of `b` into `a`; whether a bit is left there.
fn and_words(a: &mut Vec<u64>, b: &Vec<u64>, lo: usize, hi: usize) -> (r: bool)
    requires
        lo <= hi <= old(a)@.len(),
        hi <= b@.len(),
    ensures
        final(a)@.len() == old(a)@.len(),
        forall|x: int| lo * 64 <= x < hi * 64 ==> #[trigger] bit(final(a)@, x) == (bit(old(a)@, x) && bit(b@, x)),
        !r ==> forall|x: int| lo * 64 <= x < hi * 64 ==> !#[trigger] bit(final(a)@, x),
{
    let ghost a0 = a@;
    let mut any: bool = false;
    let mut i: usize = lo;
    while i < hi
        invariant
            lo <= i <= hi <= a@.len(),
            hi <= b@.len(),
            a@.len() == a0.len(),
            forall|k: int| lo <= k < i ==> #[trigger] a@[k] == a0[k] & b@[k],
            forall|k: int| i <= k < a@.len() ==> #[trigger] a@[k] == a0[k],
            !any ==> forall|k: int| lo <= k < i ==> #[trigger] a@[k] == 0,
        decreases hi - i,
    {
        let w: u64 = a[i] & b[i];
        a.set(i, w);
        if w != 0 {
            any = true;
        }
        i = i + 1;
    }
    proof {
        assert forall|x: int| lo * 64 <= x < hi * 64 implies #[trigger] bit(a@, x) == (bit(a0, x) && bit(b@, x)) by {
            lemma_word_ops(a0[x / 64], b@[x / 64]);
            assert(a@[x / 64] == a0[x / 64] & b@[x / 64]);
        }
        if !any {
            assert forall|x: int| lo * 64 <= x < hi * 64 implies !#[trigger] bit(a@, x) by {
                lemma_word_ops(0, 0);
                assert(a@[x / 64] == 0);
            }
        }
    }
    any
}

/// OR words `lo..hi` of `b` into `a`.
fn or_words(a: &mut Vec<u64>, b: &Vec<u64>, lo: usize, hi: usize)
    requires
        lo <= hi <= old(a)@.len(),
        hi <= b@.len(),
    ensures
        final(a)@.len() == old(a)@.len(),
        forall|x: int| #[trigger] bit(final(a)@, x) == (bit(old(a)@, x) || (lo * 64 <= x < hi * 64 && bit(b@, x))),
{
    let ghost a0 = a@;
    let mut i: usize = lo;
    while i < hi
        invariant
            lo <= i <= hi <= a@.len(),
            hi <= b@.len(),
            a@.len() == a0.len(),
            forall|k: int| lo <= k < i ==> #[trigger] a@[k] == a0[k] | b@[k],
            forall|k: int| 0 <= k < a@.len() && !(lo <= k < i) ==> #[trigger] a@[k] == a0[k],
        decreases hi - i,
    {
        let w: u64 = a[i] | b[i];
        a.set(i, w);
        i = i + 1;
    }
    proof {
        assert forall|x: int| #[trigger] bit(a@, x) == (bit(a0, x) || (lo * 64 <= x < hi * 64 && bit(b@, x))) by {
            if lo * 64 <= x < hi * 64 {
                lemma_word_ops(a0[x / 64], b@[x / 64]);
                assert(a@[x / 64] == a0[x / 64] | b@[x / 64]);
            } else if 0 <= x < a0.len() * 64 {
                assert(a@[x / 64] == a0[x / 64]);
            }
        }
    }
}

/// Clear in words `lo..hi` of `a` the bits set in `b`.
fn and_not_words(a: &mut Vec<u64>, b: &Vec<u64>, lo: usize, hi: usize)
    requires
        lo <= hi <= old(a)@.len(),
        hi <= b@.len(),
    ensures
        final(a)@.len() == old(a)@.len(),
        forall|x: int| lo * 64 <= x < hi * 64 ==> #[trigger] bit(final(a)@, x) == (bit(old(a)@, x) && !bit(b@, x)),
{
    let ghost a0 = a@;
    let mut i: usize = lo;
    while i < hi
        invariant
            lo <= i <= hi <= a@.len(),
            hi <= b@.len(),
            a@.len() == a0.len(),
            forall|k: int| lo <= k < i ==> #[trigger] a@[k] == a0[k] & !b@[k],
            forall|k: int| i <= k < a@.len() ==> #[trigger] a@[k] == a0[k],
        decreases hi - i,
    {
        let w: u64 = a[i] & !b[i];
        a.set(i, w);
        i = i + 1;
    }
    proof {
        assert forall|x: int| lo * 64 <= x < hi * 64 implies #[trigger] bit(a@, x) == (bit(a0, x) && !bit(b@, x)) by {
            lemma_word_ops(a0[x / 64], b@[x / 64]);
            assert(a@[x / 64] == a0[x / 64] & !b@[x / 64]);
        }
    }
}

/// Union. The current group is the minimum over children; only children
/// sitting on it contribute.
pub struct Or<'a> {
    children: Vec<Node<'a>>,
    /// Each child's current group (None = exhausted).
    at: Vec<Option<u32>>,
    started: bool,
    cur: Option<u32>,
    /// Page bitmap of each child for the current group (zero if inactive).
    child_pages: Vec<PageBits>,
    m: Ghost<Model>,
    floor: Ghost<int>,
}

/// The sum of the costs, as far as a `u64` reaches.
pub open spec fn cost_sum(c: Seq<Node>, n: int) -> int
    decreases n,
{
    if n <= 0 {
        0
    } else {
        let s = cost_sum(c, n - 1) + c[n - 1].model().cost;
        if s > u64::MAX {
            u64::MAX as int
        } else {
            s
        }
    }
}

proof fn lemma_same_cost(a: Seq<Node>, b: Seq<Node>, n: int)
    requires
        same_models(a, b),
        n <= a.len(),
    ensures
        cost_sum(a, n) == cost_sum(b, n),
    decreases n,
{
    if n > 0 {
        lemma_same_cost(a, b, n - 1);
        assert(a[n - 1].model() == b[n - 1].model());
    }
}

proof fn lemma_cost_range(c: Seq<Node>, n: int)
    ensures
        0 <= cost_sum(c, n) <= u64::MAX,
    decreases n,
{
    if n > 0 {
        lemma_cost_range(c, n - 1);
    }
}

impl<'a> Or<'a> {
    spec fn parts_ok(&self) -> bool
        decreases self, 0nat,
    {
        let c = self.children@;
        &&& c.len() >= 1
        &&& self.at@.len() == c.len()
        &&& self.child_pages@.len() == c.len()
        &&& self.m@.dir.valid()
        &&& forall|i: int| 0 <= i < c.len() ==> fits_under(#[trigger] c[i], self.m@)
        &&& forall|t: Tid| #[trigger] self.m@.tids.contains(t) <==> in_any(c, t)
        &&& self.m@.cost == cost_sum(c, c.len() as int)
    }

    /// Child `i` has no match from group `from` on, or sits at or past `from`
    /// with none before.
    spec fn child_ok(&self, i: int, from: int) -> bool {
        match self.at@[i] {
            None => none_between(self.children@[i].model().tids, from, group_limit()),
            Some(g) => {
                &&& from <= g < group_limit()
                &&& self.children@[i].at() == Some(g)
                &&& self.children@[i].floor() <= from
                &&& none_between(self.children@[i].model().tids, from, g as int)
            },
        }
    }

    /// The pages kept for child `i` hold its matches in group `g`.
    spec fn pages_cover(&self, i: int, g: u32) -> bool {
        if self.at@[i] == Some(g) {
            forall|t: Tid| #[trigger] self.children@[i].model().tids.contains(t) && t.spec_group() == g ==> self.child_pages@[i].has(t.spec_page())
        } else {
            forall|p: int| !#[trigger] self.child_pages@[i].has(p)
        }
    }

    pub fn new(children: Vec<Node<'a>>) -> (r: Self)
        requires
            children@.len() >= 1,
            forall|i: int| 0 <= i < children@.len() ==> fresh(#[trigger] children@[i], children@[0].model().dir),
        ensures
            r.wf(),
            r.floor() == 0,
            r.at() is None,
            r.model().dir == children@[0].model().dir,
            forall|t: Tid| #[trigger] r.model().tids.contains(t) <==> in_any(children@, t),
            r.model().cost == cost_sum(children@, children@.len() as int),
    {
        let ghost all = children@;
        let ghost dir = children@[0].model().dir;
        let n: usize = children.len();
        let mut at: Vec<Option<u32>> = Vec::new();
        let mut child_pages: Vec<PageBits> = Vec::new();
        let mut i: usize = 0;
        while i < n
            invariant
                i <= n,
                at@.len() == i,
                child_pages@.len() == i,
            decreases n - i,
        {
            at.push(None);
            child_pages.push(PageBits::zero());
            i = i + 1;
        }
        let ghost m = Model {
            dir,
            tids: Set::new(|t: Tid| in_any(all, t)),
            cost: cost_sum(all, all.len() as int) as u64,
            height: tallest(all) + 1,
        };
        proof {
            lemma_tallest(all);
            lemma_cost_range(all, all.len() as int);
            assert(fresh(all[0], dir));
            all[0].lemma_model();
            assert forall|i: int| 0 <= i < all.len() implies fits_under(#[trigger] all[i], m) by {
                assert(fresh(all[i], dir));
            }
        }
        Or { children, at, started: false, cur: None, child_pages, m: Ghost(m), floor: Ghost(0) }
    }
}

impl<'a> Or<'a> {
    /// Move every child that has groups left to `target` or past it; the
    /// lowest group that one of them is on.
    fn seek_children(&mut self, target: u32) -> (r: Option<u32>)
        requires
            old(self).parts_ok(),
            forall|i: int| 0 <= i < old(self).children@.len() ==> old(self).may_seek(i, target as int),
        ensures
            final(self).parts_ok(),
            final(self).m == old(self).m,
            final(self).floor == old(self).floor,
            final(self).cur == old(self).cur,
            final(self).started == old(self).started,
            forall|i: int| 0 <= i < final(self).children@.len() ==> #[trigger] final(self).child_ok(i, target as int),
            r is Some ==> exists|i: int| 0 <= i < final(self).at@.len() && final(self).at@[i] == r,
            forall|i: int| 0 <= i < final(self).at@.len() && (#[trigger] final(self).at@[i]) is Some ==> r is Some && r->0 <= final(self).at@[i]->0,
        decreases old(self).m@.height, 0nat,
    {
        let n: usize = self.children.len();
        let mut min: Option<u32> = None;
        let mut i: usize = 0;
        while i < n
            invariant
                n == self.children@.len(),
                n == old(self).children@.len(),
                i <= n,
                self.parts_ok(),
                self.m == old(self).m,
                self.floor == old(self).floor,
                self.cur == old(self).cur,
                self.started == old(self).started,
                forall|k: int| 0 <= k < i ==> #[trigger] self.child_ok(k, target as int),
                forall|k: int| i <= k < n ==> #[trigger] self.may_seek(k, target as int),
                min is Some ==> exists|k: int| 0 <= k < i && self.at@[k] == min,
                forall|k: int| 0 <= k < i && (#[trigger] self.at@[k]) is Some ==> min is Some && min->0 <= self.at@[k]->0,
            decreases n - i,
        {
            let ghost before = *self;
            let ghost ii = i as int;
            assert(fits_under(self.children@[ii], self.m@));
            assert(self.may_seek(ii, target as int));
            // Exhausted children stay exhausted; don't re-seek them.
            if !(self.started && self.at[i].is_none()) {
                let got: Option<u32> = self.children[i].seek(target);
                self.at.set(i, got);
                min = match (min, got) {
                    (None, x) => x,
                    (Some(m), Some(x)) => if m < x {
                        Some(m)
                    } else {
                        Some(x)
                    },
                    (m, None) => m,
                };
            }
            proof {
                assert(self.children@ =~= before.children@.update(ii, self.children@[ii]));
                assert forall|k: int| 0 <= k < n implies fits_under(#[trigger] self.children@[k], self.m@) by {
                    assert(fits_under(before.children@[k], before.m@));
                }
                assert(same_models(self.children@, before.children@));
                lemma_same_models(self.children@, before.children@);
                lemma_same_cost(self.children@, before.children@, n as int);
                assert forall|k: int| 0 <= k < i + 1 implies #[trigger] self.child_ok(k, target as int) by {
                    if k < i {
                        assert(before.child_ok(k, target as int));
                    }
                }
                assert forall|k: int| i + 1 <= k < n implies #[trigger] self.may_seek(k, target as int) by {
                    assert(before.may_seek(k, target as int));
                }
                assert forall|k: int| 0 <= k < i + 1 && (#[trigger] self.at@[k]) is Some implies min is Some && min->0 <= self.at@[k]->0 by {
                    if k < i {
                        assert(before.at@[k] is Some);
                    }
                }
                assert(min is Some ==> exists|k: int| 0 <= k < i + 1 && self.at@[k] == min) by {
                    if min is Some {
                        if self.at@[ii] == min {
                        } else {
                            let k = choose|k: int| 0 <= k < i && before.at@[k] == min;
                            assert(self.at@[k] == min);
                        }
                    }
                }
            }
            i = i + 1;
        }
        min
    }

    /// Child `i` may be asked for `target`, or has no match from there on.
    spec fn may_seek(&self, i: int, target: int) -> bool {
        if self.started && self.at@[i] is None {
            none_between(self.children@[i].model().tids, target, group_limit())
        } else {
            self.children@[i].floor() <= target
        }
    }

    /// Take the candidate pages of the children on group `g`.
    fn take_pages(&mut self, g: u32)
        requires
            old(self).parts_ok(),
            forall|i: int| 0 <= i < old(self).children@.len() ==> #[trigger] old(self).child_ok(i, old(self).floor@),
        ensures
            final(self).parts_ok(),
            final(self).m == old(self).m,
            final(self).floor == old(self).floor,
            final(self).cur == old(self).cur,
            final(self).started == old(self).started,
            final(self).at == old(self).at,
            forall|i: int| 0 <= i < final(self).children@.len() ==> #[trigger] final(self).child_ok(i, final(self).floor@),
            forall|i: int| 0 <= i < final(self).children@.len() ==> #[trigger] final(self).pages_cover(i, g),
        decreases old(self).m@.height, 0nat,
    {
        let n: usize = self.children.len();
        let mut i: usize = 0;
        while i < n
            invariant
                n == self.children@.len(),
                n == old(self).children@.len(),
                i <= n,
                self.parts_ok(),
                self.m == old(self).m,
                self.floor == old(self).floor,
                self.cur == old(self).cur,
                self.started == old(self).started,
                self.at == old(self).at,
                forall|k: int| 0 <= k < n ==> #[trigger] self.child_ok(k, self.floor@),
                forall|k: int| 0 <= k < i ==> #[trigger] self.pages_cover(k, g),
            decreases n - i,
        {
            let ghost before = *self;
            let ghost ii = i as int;
            assert(fits_under(self.children@[ii], self.m@));
            assert(self.child_ok(ii, self.floor@));
            let on: bool = match self.at[i] {
                Some(x) => x == g,
                None => false,
            };
            let p: PageBits = if on {
                self.children[i].pages()
            } else {
                PageBits::zero()
            };
            self.child_pages.set(i, p);
            proof {
                assert(self.children@ =~= before.children@.update(ii, self.children@[ii]));
                assert forall|k: int| 0 <= k < n implies fits_under(#[trigger] self.children@[k], self.m@) by {
                    assert(fits_under(before.children@[k], before.m@));
                }
                assert(same_models(self.children@, before.children@));
                lemma_same_models(self.children@, before.children@);
                lemma_same_cost(self.children@, before.children@, n as int);
                assert forall|k: int| 0 <= k < n implies #[trigger] self.child_ok(k, self.floor@) by {
                    assert(before.child_ok(k, self.floor@));
                }
                assert forall|k: int| 0 <= k < i + 1 implies #[trigger] self.pages_cover(k, g) by {
                    if k < i {
                        assert(before.pages_cover(k, g));
                    }
                }
            }
            i = i + 1;
        }
    }

    /// Matches lie in no group before the lowest one that a child is on.
    proof fn lemma_none(&self, from: int, to: int)
        requires
            self.parts_ok(),
            to <= group_limit(),
            forall|i: int| 0 <= i < self.children@.len() ==> #[trigger] self.child_ok(i, from),
            forall|i: int| 0 <= i < self.at@.len() && (#[trigger] self.at@[i]) is Some ==> to <= self.at@[i]->0,
        ensures
            none_between(self.m@.tids, from, to),
    {
        assert forall|t: Tid| #[trigger] self.m@.tids.contains(t) implies !(from <= t.spec_group() < to) by {
            let i = choose|i: int| 0 <= i < self.children@.len() && (#[trigger] self.children@[i]).model().tids.contains(t);
            assert(self.child_ok(i, from));
        }
    }
}

impl<'a> Cursor for Or<'a> {
    closed spec fn wf(&self) -> bool
        decreases self, 1nat,
    {
        &&& self.parts_ok()
        &&& match self.cur {
            Some(g) => {
                &&& self.started
                &&& g < group_limit()
                &&& forall|i: int| 0 <= i < self.children@.len() ==> #[trigger] self.child_ok(i, self.floor@)
                &&& forall|i: int| 0 <= i < self.children@.len() ==> #[trigger] self.pages_cover(i, g)
                &&& forall|i: int| 0 <= i < self.at@.len() && (#[trigger] self.at@[i]) is Some ==> g <= self.at@[i]->0
                &&& exists|i: int| 0 <= i < self.at@.len() && self.at@[i] == Some(g)
            },
            None => if self.started {
                forall|i: int| 0 <= i < self.children@.len() ==> #[trigger] self.child_ok(i, self.floor@) && self.at@[i] is None
            } else {
                forall|i: int| 0 <= i < self.children@.len() ==> (#[trigger] self.children@[i]).floor() <= self.floor@
            },
        }
    }

    closed spec fn model(&self) -> Model {
        self.m@
    }

    closed spec fn floor(&self) -> int {
        self.floor@
    }

    closed spec fn at(&self) -> Option<u32> {
        self.cur
    }

    proof fn lemma_model(&self)
        decreases self,
    {
        assert forall|t: Tid| #[trigger] self.m@.tids.contains(t) implies self.m@.dir.holds(t) by {
            let i = choose|i: int| 0 <= i < self.children@.len() && (#[trigger] self.children@[i]).model().tids.contains(t);
            let c = self.children@[i];
            assert(fits_under(c, self.m@));
            c.lemma_model();
        }
    }

    fn seek(&mut self, target: u32) -> (r: Option<u32>)
        decreases old(self).model().height, 1nat,
    {
        if let Some(g) = self.cur {
            if g >= target {
                proof {
                    self.lemma_none(self.floor@, g as int);
                }
                return Some(g);
            }
        }
        let ghost before = *self;
        proof {
            assert forall|i: int| 0 <= i < self.children@.len() implies self.may_seek(i, target as int) by {
                if self.started {
                    assert(self.child_ok(i, self.floor@));
                } else {
                    assert(self.children@[i].floor() <= self.floor@);
                }
            }
        }
        self.floor = Ghost(target as int);
        self.cur = None;
        proof {
            assert(self.parts_ok());
            assert forall|i: int| 0 <= i < self.children@.len() implies self.may_seek(i, target as int) by {
                assert(before.may_seek(i, target as int));
            }
        }
        let min: Option<u32> = self.seek_children(target);
        let ghost mid = *self;
        self.started = true;
        self.cur = min;
        proof {
            assert(self.parts_ok());
            assert forall|i: int| 0 <= i < self.children@.len() implies #[trigger] self.child_ok(i, target as int) by {
                assert(mid.child_ok(i, target as int));
            }
            if min is Some {
                let i = choose|i: int| 0 <= i < mid.at@.len() && mid.at@[i] == min;
                assert(self.at@[i] == min);
                assert(self.child_ok(i, target as int));
            }
        }
        match min {
            Some(g) => {
                self.take_pages(g);
                proof {
                    self.lemma_none(target as int, g as int);
                }
            },
            None => {
                proof {
                    self.lemma_none(target as int, group_limit());
                }
            },
        }
        min
    }

    fn pages(&mut self) -> (r: PageBits) {
        let mut all: PageBits = PageBits::zero();
        let n: usize = self.child_pages.len();
        let mut i: usize = 0;
        while i < n
            invariant
                i <= n,
                n == self.child_pages@.len(),
                *self == *old(self),
                forall|k: int, p: int| 0 <= k < i && (#[trigger] self.child_pages@[k]).has(p) ==> #[trigger] all.has(p),
            decreases n - i,
        {
            let ghost was = all;
            all = all | self.child_pages[i];
            proof {
                assert forall|k: int, p: int| 0 <= k < i + 1 && (#[trigger] self.child_pages@[k]).has(p) implies #[trigger] all.has(p) by {
                    if k < i {
                        assert(was.has(p));
                    }
                }
            }
            i = i + 1;
        }
        proof {
            let g = self.cur->0;
            assert forall|t: Tid| #[trigger] self.m@.tids.contains(t) && t.spec_group() == g implies all.has(t.spec_page()) by {
                let i = self.lemma_owner(t);
                assert(self.child_pages@[i].has(t.spec_page()));
            }
        }
        all
    }

    fn or_into(&mut self, mask: &PageBits, space: &GroupSpace<'_>, out: &mut Vec<u64>)
        decreases old(self).model().height, 1nat,
    {
        let ghost m = self.m@;
        let ghost g = space.group();
        let ghost gg = self.cur->0;
        let ghost out0 = out@;
        let n: usize = self.children.len();
        let mut i: usize = 0;
        while i < n
            invariant
                n == self.children@.len(),
                i <= n,
                m == self.m@,
                old(self).m@ == m,
                old(self).cur == Some(gg),
                self.cur == Some(gg),
                old(self).floor == self.floor,
                g == gg,
                self.wf(),
                space.wf(),
                space.dir() == m.dir,
                space.group() == g,
                out0 == old(out)@,
                out@.len() == out0.len(),
                out0.len() >= space.spec_words(),
                forall|x: int| #[trigger] bit(out@, x) == (bit(out0, x) || hit_some(self.children@, i as int, g, *mask, x)),
            decreases n - i,
        {
            let ghost before = *self;
            let ghost o = out@;
            let ghost ii = i as int;
            let both: PageBits = *mask & self.child_pages[i];
            proof {
                assert(fits_under(self.children@[ii], self.m@));
                assert(self.child_ok(ii, self.floor@));
                assert(self.pages_cover(ii, gg));
                self.children@[ii].lemma_model();
                let cm = self.children@[ii].model();
                assert forall|x: int| hit(cm, g, *mask, x) == hit(cm, g, both, x) by {
                    self.lemma_child_hit(ii, *mask, both, x);
                }
            }
            if !both.is_zero() {
                proof {
                    let p = choose|p: int| both.has(p);
                    assert(self.child_pages@[ii].has(p));
                    assert(self.at@[ii] == Some(gg));
                }
                self.children[i].or_into(&both, space, out);
            }
            proof {
                assert(self.children@ =~= before.children@.update(ii, self.children@[ii]));
                self.lemma_same_state(&before);
                assert forall|x: int| #[trigger] bit(out@, x) == (bit(out0, x) || hit_some(self.children@, ii + 1, g, *mask, x)) by {
                    assert(bit(o, x) == (bit(out0, x) || hit_some(before.children@, ii, g, *mask, x)));
                    lemma_hit_some(before.children@, self.children@, ii, g, *mask, x);
                }
            }
            i = i + 1;
        }
        proof {
            assert forall|x: int| #[trigger] bit(out@, x) == (bit(out0, x) || hit(m, g, *mask, x)) by {
                let t = m.dir.tid_at(g, x);
                if hit(m, g, *mask, x) {
                    assert(in_any(self.children@, t));
                    let k = choose|k: int| 0 <= k < self.children@.len() && (#[trigger] self.children@[k]).model().tids.contains(t);
                    assert(fits_under(self.children@[k], self.m@));
                    assert(hit(self.children@[k].model(), g, *mask, x));
                }
                if hit_some(self.children@, n as int, g, *mask, x) {
                    let k = choose|k: int| 0 <= k < n && hit((#[trigger] self.children@[k]).model(), g, *mask, x);
                    assert(fits_under(self.children@[k], self.m@));
                    assert(in_any(self.children@, t));
                }
            }
        }
    }

    fn cost(&self) -> (r: u64)
        decreases self.model().height, 1nat,
    {
        let n: usize = self.children.len();
        let mut sum: u64 = 0;
        let mut i: usize = 0;
        while i < n
            invariant
                n == self.children@.len(),
                i <= n,
                self.wf(),
                sum == cost_sum(self.children@, i as int),
            decreases n - i,
        {
            assert(fits_under(self.children@[i as int], self.m@));
            sum = sum.saturating_add(self.children[i].cost());
            i = i + 1;
        }
        sum
    }
}

/// A bit that one of the first `n` children hits.
spec fn hit_some(c: Seq<Node>, n: int, g: int, mask: PageBits, x: int) -> bool {
    exists|i: int| 0 <= i < n && hit((#[trigger] c[i]).model(), g, mask, x)
}

proof fn lemma_hit_some(a: Seq<Node>, b: Seq<Node>, n: int, g: int, mask: PageBits, x: int)
    requires
        same_models(b, a),
        0 <= n < a.len(),
    ensures
        hit_some(b, n + 1, g, mask, x) == (hit_some(a, n, g, mask, x) || hit(a[n].model(), g, mask, x)),
{
    if hit_some(a, n, g, mask, x) {
        let i = choose|i: int| 0 <= i < n && hit((#[trigger] a[i]).model(), g, mask, x);
        assert(hit(b[i].model(), g, mask, x));
    }
    assert(b[n].model() == a[n].model());
    if hit_some(b, n + 1, g, mask, x) {
        let i = choose|i: int| 0 <= i < n + 1 && hit((#[trigger] b[i]).model(), g, mask, x);
        if i < n {
            assert(hit(a[i].model(), g, mask, x));
        }
    }
}

impl<'a> Or<'a> {
    /// A match of the current group is a match of a child that sits on it.
    proof fn lemma_owner(&self, t: Tid) -> (i: int)
        requires
            self.wf(),
            self.cur is Some,
            self.m@.tids.contains(t),
            t.spec_group() == self.cur->0,
        ensures
            0 <= i < self.children@.len(),
            self.child_pages@[i].has(t.spec_page()),
    {
        let g = self.cur->0;
        assert(in_any(self.children@, t));
        let i = choose|i: int| 0 <= i < self.children@.len() && (#[trigger] self.children@[i]).model().tids.contains(t);
        self.lemma_on_group(i, t);
        i
    }

    proof fn lemma_on_group(&self, i: int, t: Tid)
        requires
            self.wf(),
            self.cur is Some,
            0 <= i < self.children@.len(),
            self.children@[i].model().tids.contains(t),
            t.spec_group() == self.cur->0,
        ensures
            self.at@[i] == self.cur,
            self.child_pages@[i].has(t.spec_page()),
    {
        let g = self.cur->0;
        assert(self.child_ok(i, self.floor@));
        assert(self.pages_cover(i, g));
        let k = choose|k: int| 0 <= k < self.at@.len() && self.at@[k] == Some(g);
        assert(self.child_ok(k, self.floor@));
        if self.at@[i] is Some {
            assert(g <= self.at@[i]->0);
        }
    }

    /// A child hits nothing outside the pages kept for it.
    proof fn lemma_child_hit(&self, i: int, mask: PageBits, both: PageBits, x: int)
        requires
            self.wf(),
            self.cur is Some,
            0 <= i < self.children@.len(),
            self.children@[i].model().valid(),
            forall|p: int| #[trigger] both.has(p) == (mask.has(p) && self.child_pages@[i].has(p)),
        ensures
            hit(self.children@[i].model(), self.cur->0 as int, mask, x) == hit(self.children@[i].model(), self.cur->0 as int, both, x),
    {
        let cm = self.children@[i].model();
        let g = self.cur->0 as int;
        if hit(cm, g, mask, x) {
            lemma_tid_at(cm.dir, g, x);
            self.lemma_on_group(i, cm.dir.tid_at(g, x));
        }
    }

    /// Reading tuples off a child changes nothing else.
    proof fn lemma_same_state(&self, o: &Self)
        requires
            o.wf(),
            o.cur is Some,
            self.m == o.m,
            self.floor == o.floor,
            self.cur == o.cur,
            self.started == o.started,
            self.at == o.at,
            self.child_pages == o.child_pages,
            self.children@.len() == o.children@.len(),
            forall|i: int| 0 <= i < o.children@.len() ==> {
                &&& (#[trigger] self.children@[i]).wf()
                &&& self.children@[i].model() == o.children@[i].model()
                &&& self.children@[i].at() == o.children@[i].at()
                &&& self.children@[i].floor() == o.children@[i].floor()
            },
        ensures
            self.wf(),
            same_models(self.children@, o.children@),
    {
        let n = self.children@.len() as int;
        assert forall|i: int| 0 <= i < n implies fits_under(#[trigger] self.children@[i], self.m@) by {
            assert(fits_under(o.children@[i], o.m@));
        }
        lemma_same_models(self.children@, o.children@);
        lemma_same_cost(self.children@, o.children@, n);
        let g = self.cur->0;
        assert forall|i: int| 0 <= i < n implies #[trigger] self.child_ok(i, self.floor@) by {
            assert(o.child_ok(i, o.floor@));
        }
        assert forall|i: int| 0 <= i < n implies #[trigger] self.pages_cover(i, g) by {
            assert(o.pages_cover(i, g));
        }
        let k = choose|k: int| 0 <= k < o.at@.len() && o.at@[k] == Some(g);
        assert(self.at@[k] == Some(g));
    }
}

/// `positive AND NOT negative`.
pub struct AndNot<'a> {
    pos: Node<'a>,
    neg: Node<'a>,
    neg_pages: PageBits,
    p: Vec<u64>,
    n: Vec<u64>,
    m: Ghost<Model>,
}

impl<'a> AndNot<'a> {
    spec fn parts_ok(&self) -> bool
        decreases self, 0nat,
    {
        &&& fits_under(self.pos, self.m@)
        &&& fits_under(self.neg, self.m@)
        &&& self.m@.cost == self.pos.model().cost
        &&& forall|t: Tid| #[trigger] self.m@.tids.contains(t) <==> self.pos.model().tids.contains(t) && !self.neg.model().tids.contains(t)
    }

    /// The pages kept for the negative side hold its matches in group `g`.
    spec fn neg_ok(&self, g: u32) -> bool {
        ||| self.neg.at() == Some(g) && forall|t: Tid| #[trigger] self.neg.model().tids.contains(t) && t.spec_group() == g ==> self.neg_pages.has(t.spec_page())
        ||| (forall|p: int| !#[trigger] self.neg_pages.has(p)) && none_between(self.neg.model().tids, g as int, g + 1)
    }

    pub fn new(pos: Node<'a>, neg: Node<'a>) -> (r: Self)
        requires
            fresh(pos, pos.model().dir),
            fresh(neg, pos.model().dir),
        ensures
            r.wf(),
            r.floor() == 0,
            r.at() is None,
            r.model().dir == pos.model().dir,
            forall|t: Tid| #[trigger] r.model().tids.contains(t) <==> pos.model().tids.contains(t) && !neg.model().tids.contains(t),
            r.model().cost == pos.model().cost,
    {
        let ghost (a, b) = (pos.model(), neg.model());
        let ghost m = Model {
            dir: a.dir,
            tids: Set::new(|t: Tid| a.tids.contains(t) && !b.tids.contains(t)),
            cost: a.cost,
            height: if a.height > b.height { a.height + 1 } else { b.height + 1 },
        };
        AndNot { pos, neg, neg_pages: PageBits::zero(), p: Vec::new(), n: Vec::new(), m: Ghost(m) }
    }
}

impl<'a> Cursor for AndNot<'a> {
    closed spec fn wf(&self) -> bool
        decreases self, 1nat,
    {
        &&& self.parts_ok()
        &&& match self.pos.at() {
            Some(g) => g < group_limit() && self.neg.floor() <= g && self.neg_ok(g),
            None => self.neg.floor() <= self.pos.floor(),
        }
    }

    closed spec fn model(&self) -> Model {
        self.m@
    }

    closed spec fn floor(&self) -> int
        decreases self,
    {
        self.pos.floor()
    }

    closed spec fn at(&self) -> Option<u32>
        decreases self,
    {
        self.pos.at()
    }

    proof fn lemma_model(&self)
        decreases self,
    {
        self.pos.lemma_model();
    }

    fn seek(&mut self, target: u32) -> (r: Option<u32>)
        decreases old(self).model().height, 1nat,
    {
        let got: Option<u32> = self.pos.seek(target);
        match got {
            None => None,
            Some(g) => {
                let on: Option<u32> = self.neg.seek(g);
                let same: bool = match on {
                    Some(x) => x == g,
                    None => false,
                };
                self.neg_pages = if same {
                    self.neg.pages()
                } else {
                    PageBits::zero()
                };
                Some(g)
            },
        }
    }

    fn pages(&mut self) -> (r: PageBits)
        decreases old(self).model().height, 1nat,
    {
        // Can't subtract pages: the negative side may cover only some tuples.
        self.pos.pages()
    }

    fn or_into(&mut self, mask: &PageBits, space: &GroupSpace<'_>, out: &mut Vec<u64>)
        decreases old(self).model().height, 1nat,
    {
        let ghost m = self.m@;
        let ghost (a, b) = (self.pos.model(), self.neg.model());
        let ghost g = space.group();
        let ghost out0 = out@;
        let both: PageBits = *mask & self.neg_pages;
        proof {
            self.pos.lemma_model();
            self.neg.lemma_model();
            assert forall|x: int| hit(b, g, *mask, x) == hit(b, g, both, x) by {
                if hit(b, g, *mask, x) {
                    lemma_tid_at(b.dir, g, x);
                }
            }
            assert forall|x: int| hit(m, g, *mask, x) == (hit(a, g, *mask, x) && !hit(b, g, *mask, x)) by {
                assert(m.tids.contains(m.dir.tid_at(g, x)) <==> a.tids.contains(m.dir.tid_at(g, x)) && !b.tids.contains(m.dir.tid_at(g, x)));
            }
        }
        if both.is_zero() {
            self.pos.or_into(mask, space, out);
            return;
        }
        proof {
            let p = choose|p: int| both.has(p);
            assert(self.neg_pages.has(p));
        }
        let (lo, hi): (usize, usize) = space.word_range(mask);
        let words: usize = space.words();
        zeroed(&mut self.p, words, lo, hi);
        self.pos.or_into(mask, space, &mut self.p);
        zeroed(&mut self.n, words, lo, hi);
        self.neg.or_into(&both, space, &mut self.n);
        and_not_words(&mut self.p, &self.n, lo, hi);
        or_words(out, &self.p, lo, hi);
        proof {
            assert forall|x: int| #[trigger] bit(out@, x) == (bit(out0, x) || hit(m, g, *mask, x)) by {
                if hit(a, g, *mask, x) {
                    assert(mask.has(m.dir.page_at(g, x)));
                }
            }
        }
    }

    fn cost(&self) -> (r: u64)
        decreases self.model().height, 1nat,
    {
        self.pos.cost()
    }
}

/// The tuples of a segment whose bit is set in a segment-wide bitmap.
pub open spec fn tids_of_bits(bits: Seq<u64>, d: Widths) -> Set<Tid> {
    Set::new(|t: Tid| d.holds(t) && bit(bits, d.tid_bit(t)))
}

/// Matches the set bits of a segment-wide tuple-space bitmap: the result of
/// expanding a many-term pattern (prefix, typo, fragment scan) up front,
/// which is far cheaper than a union of thousands of term cursors.
pub struct Bits<'a> {
    bits: Vec<u64>,
    spaces: &'a SpaceTable,
    count: u64,
    cur: Option<u32>,
    /// The current group's slice of `bits`, in group tuple-space layout.
    group: Vec<u64>,
    pages: PageBits,
    floor: Ghost<int>,
}

impl<'a> Bits<'a> {
    pub fn new(bits: Vec<u64>, spaces: &'a SpaceTable) -> (r: Self)
        requires
            spaces.wf(),
            bits@.len() * 64 <= usize::MAX,
        ensures
            r.wf(),
            r.floor() == 0,
            r.at() is None,
            r.model().dir == spaces.dir(),
            r.model().tids == tids_of_bits(bits@, spaces.dir()),
            r.model().cost == ones_of(bits@).len(),
    {
        let count: u64 = words::count(bits.as_slice());
        Bits { bits, spaces, count, cur: None, group: Vec::new(), pages: PageBits::zero(), floor: Ghost(0) }
    }

    /// The first set bit at or after `from`.
    fn next_set_bit(&self, from: u64) -> (r: Option<u64>)
        requires
            self.bits@.len() * 64 <= usize::MAX,
        ensures
            match r {
                Some(b) => from <= b && bit(self.bits@, b as int) && forall|x: int| from <= x < b ==> !#[trigger] bit(self.bits@, x),
                None => forall|x: int| from <= x ==> !#[trigger] bit(self.bits@, x),
            },
    {
        let n: usize = self.bits.len() * 64;
        if from >= n as u64 {
            return None;
        }
        let b: usize = words::next_one(self.bits.as_slice(), from as usize);
        if b < n {
            Some(b as u64)
        } else {
            None
        }
    }

    /// The current group's slice holds that group's bits.
    spec fn group_ok(&self, g: int) -> bool {
        let d = self.spaces.dir();
        &&& self.group@.len() == (d.bits(g) + 63) / 64
        &&& forall|x: int| 0 <= x < d.bits(g) ==> #[trigger] bit(self.group@, x) == bit(self.bits@, d.below(g * 256) + x)
        &&& forall|t: Tid| #[trigger] d.holds(t) && t.spec_group() == g && bit(self.bits@, d.tid_bit(t)) ==> self.pages.has(t.spec_page())
    }

    /// Read group `g`.
    fn load(&mut self, g: u32)
        requires
            old(self).spaces.wf(),
            old(self).spaces.covers(g as int),
        ensures
            final(self).bits == old(self).bits,
            final(self).spaces == old(self).spaces,
            final(self).count == old(self).count,
            final(self).cur == old(self).cur,
            final(self).floor == old(self).floor,
            final(self).group_ok(g as int),
    {
        let ghost d = self.spaces.dir();
        let space: GroupSpace<'a> = self.spaces.group(g);
        let base: u64 = space.base();
        let words: usize = space.words();
        let mut group: Vec<u64> = Vec::new();
        proof {
            lemma_start_mono(d, g as int, 0, 256);
            self.spaces.lemma_small(g as int);
        }
        let mut i: usize = 0;
        while i < words
            invariant
                i <= words,
                words <= 0x4_0000,
                base < 0x1_0000_0000_0000,
                group@.len() == i,
                forall|k: int, j: int| 0 <= k < i && 0 <= j < 64 ==> #[trigger] word_bit(group@[k], j) == bit(self.bits@, base + k * 64 + j),
            decreases words - i,
        {
            let w: u64 = bits_from(self.bits.as_slice(), base + i as u64 * 64);
            group.push(w);
            i = i + 1;
        }
        let mut pages: PageBits = PageBits::zero();
        let all: PageBits = PageBits::zero().not();
        let found: Vec<(u8, u16)> = space.for_each_tuple(group.as_slice(), &all);
        let mut k: usize = 0;
        while k < found.len()
            invariant
                k <= found@.len(),
                forall|i: int| 0 <= i < k ==> pages.has((#[trigger] found@[i]).0 as int),
            decreases found@.len() - k,
        {
            pages.set(found[k].0 as usize);
            k = k + 1;
        }
        self.group = group;
        self.pages = pages;
        proof {
            assert forall|x: int| 0 <= x < d.bits(g as int) implies #[trigger] bit(self.group@, x) == bit(self.bits@, d.below(g * 256) + x) by {
                assert(word_bit(self.group@[x / 64], x % 64) == bit(self.bits@, base + (x / 64) * 64 + x % 64));
            }
            assert forall|t: Tid| #[trigger] d.holds(t) && t.spec_group() == g && bit(self.bits@, d.tid_bit(t)) implies self.pages.has(t.spec_page()) by {
                lemma_slot(d, t);
                assert(g * 256 + t.spec_page() == t.block);
                assert(d.tid_bit(t) == d.below(g * 256) + d.slot(t));
                assert(bit(self.group@, d.slot(t)));
                let e = (t.spec_page() as u8, t.spec_bit() as u16);
                assert(all.has(t.spec_page()));
                assert(found@.contains(e));
                let i = found@.index_of(e);
                assert(self.pages.has(found@[i].0 as int));
            }
        }
    }
}

impl<'a> Cursor for Bits<'a> {
    closed spec fn wf(&self) -> bool {
        &&& self.spaces.wf()
        &&& self.bits@.len() * 64 <= usize::MAX
        &&& self.count == ones_of(self.bits@).len()
        &&& self.cur is Some ==> {
            &&& self.cur->0 < group_limit()
            &&& self.group_ok(self.cur->0 as int)
            &&& none_between(self.model().tids, self.floor@, self.cur->0 as int)
        }
    }

    closed spec fn model(&self) -> Model {
        Model { dir: self.spaces.dir(), tids: tids_of_bits(self.bits@, self.spaces.dir()), cost: self.count, height: 0 }
    }

    closed spec fn floor(&self) -> int {
        self.floor@
    }

    closed spec fn at(&self) -> Option<u32> {
        self.cur
    }

    proof fn lemma_model(&self) {
        self.spaces.lemma_dir();
    }

    fn seek(&mut self, target: u32) -> (r: Option<u32>) {
        if let Some(g) = self.cur {
            if g >= target {
                return Some(g);
            }
        }
        self.floor = Ghost(target as int);
        self.cur = None;
        let ghost (d, s) = (self.spaces.dir(), self.bits@);
        let from: u64 = self.spaces.base_of(target);
        let next: Option<u64> = self.next_set_bit(from);
        proof {
            self.spaces.lemma_dir();
            assert forall|t: Tid| #[trigger] d.holds(t) && t.spec_group() >= target implies from <= d.tid_bit(t) by {
                self.spaces.lemma_holds_covered(t);
                lemma_below_mono(d, target * 256, t.block as int);
                crate::space::lemma_below_nonneg(d, t.block as int);
            }
        }
        match next {
            None => None,
            Some(b) => {
                match self.spaces.group_of_bit(b) {
                    None => {
                        proof {
                            assert forall|t: Tid| #[trigger] self.model().tids.contains(t) implies false by {
                                self.spaces.lemma_holds_covered(t);
                            }
                        }
                        None
                    },
                    Some(g) => {
                        proof {
                            self.spaces.lemma_small(g as int);
                            if g < target {
                                if self.spaces.covers(target as int) {
                                    lemma_below_mono(d, (g + 1) * 256, target * 256);
                                    assert(self.spaces.covers(g + 1));
                                }
                                assert(false);
                            }
                        }
                        self.load(g);
                        self.cur = Some(g);
                        proof {
                            assert forall|t: Tid| #[trigger] self.model().tids.contains(t) implies !(target <= t.spec_group() < g) by {
                                if target <= t.spec_group() < g {
                                    lemma_slot(d, t);
                                    lemma_below_mono(d, t.block as int + 1, g * 256);
                                    crate::space::lemma_below_step(d, t.block as int);
                                    assert(d.tid_bit(t) < b);
                                    assert(!bit(s, d.tid_bit(t)));
                                }
                            }
                        }
                        Some(g)
                    },
                }
            },
        }
    }

    fn pages(&mut self) -> (r: PageBits) {
        self.pages
    }

    fn or_into(&mut self, mask: &PageBits, space: &GroupSpace<'_>, out: &mut Vec<u64>) {
        let ghost m = self.model();
        let ghost d = m.dir;
        let ghost g = space.group();
        let ghost out0 = out@;
        let want: PageBits = *mask & self.pages;
        proof {
            self.lemma_model();
        }
        let mut runs = want.runs();
        loop
            invariant
                *self == *old(self),
                self.wf(),
                self.cur is Some,
                g == self.cur->0,
                m == self.model(),
                m.valid(),
                d == m.dir,
                space.wf(),
                space.dir() == d,
                space.group() == g,
                out0 == old(out)@,
                out@.len() == out0.len(),
                out0.len() >= space.spec_words(),
                runs.wf(),
                runs.bits() == want.0@,
                forall|p: int| #[trigger] want.has(p) == (mask.has(p) && self.pages.has(p)),
                forall|x: int| #[trigger] bit(out@, x) == (bit(out0, x) || (hit(m, g, *mask, x) && d.page_at(g, x) < runs.at())),
            decreases 256 - runs.at(),
        {
            let ghost from = runs.at();
            match runs.next() {
                None => {
                    proof {
                        assert forall|x: int| #[trigger] bit(out@, x) == (bit(out0, x) || hit(m, g, *mask, x)) by {
                            if hit(m, g, *mask, x) {
                                self.lemma_wanted(want, *mask, g, x);
                                assert(d.page_at(g, x) < from || !bit(want.0@, d.page_at(g, x)));
                            }
                        }
                    }
                    return;
                },
                Some((lo, hi)) => {
                    let a: usize = space.start(lo);
                    let b: usize = space.start(hi);
                    let ghost was = out@;
                    proof {
                        lemma_start_mono(d, g, lo as int, hi as int);
                        lemma_start_mono(d, g, hi as int, 256);
                    }
                    let mut at: usize = a;
                    while at < b
                        invariant
                            *self == *old(self),
                            self.wf(),
                            a <= at <= b,
                            b <= d.bits(g),
                            b <= 0xFFFF00,
                            out@.len() == was.len(),
                            d.bits(g) <= was.len() * 64,
                            forall|x: int| #[trigger] bit(out@, x) == (bit(was, x) || (a <= x < at && bit(self.group@, x))),
                        decreases b - at,
                    {
                        let n: usize = if b - at < 64 { b - at } else { 64 };
                        let mut v: u64 = bits_at(self.group.as_slice(), at);
                        if n < 64 {
                            proof {
                                lemma_word_shift(0, n as u64);
                                lemma_word_ops(v, ((1u64 << (n as u64)) - 1) as u64);
                            }
                            v = v & ((1u64 << (n as u64)) - 1);
                        }
                        assert(forall|j: int| 0 <= j < 64 ==> #[trigger] word_bit(v, j) == (j < n && bit(self.group@, at + j)));
                        let ghost o = out@;
                        or_word(out, at, v, n);
                        proof {
                            assert forall|x: int| #[trigger] bit(out@, x) == (bit(was, x) || (a <= x < at + n && bit(self.group@, x))) by {
                                assert(bit(o, x) == (bit(was, x) || (a <= x < at && bit(self.group@, x))));
                                if at <= x < at + n {
                                    assert(word_bit(v, x - at) == bit(self.group@, at + (x - at)));
                                }
                            }
                        }
                        at = at + n;
                    }
                    proof {
                        assert forall|x: int| #[trigger] bit(out@, x) == (bit(out0, x) || (hit(m, g, *mask, x) && d.page_at(g, x) < hi)) by {
                            assert(bit(was, x) == (bit(out0, x) || (hit(m, g, *mask, x) && d.page_at(g, x) < from)));
                            if 0 <= x < d.bits(g) {
                                let p = d.page_at(g, x);
                                lemma_page_at(d, g, x);
                                lemma_tid_at(d, g, x);
                                self.lemma_group_bit(g, x);
                                if p < lo {
                                    lemma_start_mono(d, g, p + 1, lo as int);
                                } else if p >= hi {
                                    lemma_start_mono(d, g, hi as int, p);
                                } else {
                                    lemma_start_mono(d, g, lo as int, p);
                                    lemma_start_mono(d, g, p + 1, hi as int);
                                    assert(bit(want.0@, p));
                                    assert(want.has(p));
                                }
                                if hit(m, g, *mask, x) {
                                    self.lemma_wanted(want, *mask, g, x);
                                    assert(!(from <= p < lo) || !bit(want.0@, p));
                                }
                            }
                        }
                    }
                },
            }
        }
    }

    fn cost(&self) -> (r: u64) {
        self.count
    }
}

impl<'a> Bits<'a> {
    /// A bit of the current group's slice stands for a match.
    proof fn lemma_group_bit(&self, g: int, x: int)
        requires
            self.wf(),
            self.cur is Some,
            g == self.cur->0,
            0 <= x < self.spaces.dir().bits(g),
        ensures
            bit(self.group@, x) <==> self.model().tids.contains(self.spaces.dir().tid_at(g, x)),
    {
        let d = self.spaces.dir();
        self.spaces.lemma_dir();
        lemma_tid_at(d, g, x);
        let t = d.tid_at(g, x);
        assert(g * 256 + t.spec_page() == t.block);
        assert(d.tid_bit(t) == d.below(g * 256) + x);
    }

    /// A match on a masked page is on a wanted page.
    proof fn lemma_wanted(&self, want: PageBits, mask: PageBits, g: int, x: int)
        requires
            self.wf(),
            self.cur is Some,
            g == self.cur->0,
            forall|p: int| #[trigger] want.has(p) == (mask.has(p) && self.pages.has(p)),
            hit(self.model(), g, mask, x),
        ensures
            want.has(self.spaces.dir().page_at(g, x)),
    {
        let d = self.spaces.dir();
        self.spaces.lemma_dir();
        lemma_tid_at(d, g, x);
        assert(d.holds(d.tid_at(g, x)));
    }
}

} // verus!
