//! Group-at-a-time query execution.
//!
//! A [`Cursor`] walks a set of tids one 256-page group at a time, in two
//! levels that mirror the storage:
//!
//! 1. **Pages.** Combine the children's [`PageBits`] to find candidate pages.
//!    For AND this usually rules out whole groups, and most pages of the
//!    rest, before any offset data is touched.
//! 2. **Tuples.** For the candidate pages, children OR their exact matches
//!    into a bitmap over the group's *tuple space*: every line pointer of
//!    every page in the group, packed back to back (see [`GroupSpace`]).
//!    Boolean ops are then word-wise over that one bitmap.
//!
//! `pages()` may over-approximate (a superset of the pages with matches); the
//! tuple bitmap is always exact.

use vstd::prelude::*;
use crate::bitmap::PageBits;
use crate::space::{lemma_slot, lemma_tid_at, GroupSpace, Widths};
use crate::tid::Tid;
use crate::words::bit;

verus! {

/// What a cursor stands for, whatever its position.
pub ghost struct Model {
    /// The page directory of the segment it reads.
    pub dir: Widths,
    /// Its matches.
    pub tids: Set<Tid>,
    /// What [`Cursor::cost`] returns.
    pub cost: u64,
    /// How deeply cursors are nested in it.
    pub height: nat,
}

impl Model {
    /// Every match is on a line pointer of the directory.
    pub open spec fn valid(self) -> bool {
        &&& self.dir.valid()
        &&& forall|t: Tid| #[trigger] self.tids.contains(t) ==> self.dir.holds(t)
    }
}

/// No tid lies in the groups `lo..hi`.
pub open spec fn none_between(tids: Set<Tid>, lo: int, hi: int) -> bool {
    forall|t: Tid| #[trigger] tids.contains(t) ==> !(lo <= t.spec_group() < hi)
}

/// One past the last group that a block number can be in.
pub open spec fn group_limit() -> int {
    0x100_0000
}

/// Bit `x` of group `g`'s tuple space stands for a match on a page in `mask`.
pub open spec fn hit(m: Model, g: int, mask: PageBits, x: int) -> bool {
    &&& 0 <= x < m.dir.bits(g)
    &&& mask.has(m.dir.page_at(g, x))
    &&& m.tids.contains(m.dir.tid_at(g, x))
}

/// `after` is `before` with the hits of group `g` set.
pub open spec fn ored(m: Model, g: int, mask: PageBits, before: Seq<u64>, after: Seq<u64>) -> bool {
    &&& after.len() == before.len()
    &&& forall|x: int| #[trigger] bit(after, x) == (bit(before, x) || hit(m, g, mask, x))
}

/// A set of tids, walked one group at a time.
pub trait Cursor {
    /// The cursor's parts agree.
    spec fn wf(&self) -> bool;

    /// What the cursor stands for.
    spec fn model(&self) -> Model;

    /// The lowest group that may still be asked for.
    spec fn floor(&self) -> int;

    /// The group that the cursor sits on.
    spec fn at(&self) -> Option<u32>;

    proof fn lemma_model(&self)
        requires
            self.wf(),
        ensures
            self.model().valid(),
    ;

    /// Move to the first group `>= target` that may contain matches and
    /// return it, or `None` when exhausted. Idempotent: if the cursor already
    /// sits on a group `>= target` it stays there.
    fn seek(&mut self, target: u32) -> (r: Option<u32>)
        requires
            old(self).wf(),
            old(self).floor() <= target,
        ensures
            final(self).wf(),
            final(self).model() == old(self).model(),
            final(self).at() == r,
            match old(self).at() {
                Some(g) if g >= target => r == Some(g) && final(self).floor() == old(self).floor(),
                _ => final(self).floor() == target,
            },
            match r {
                Some(g) => {
                    &&& target <= g < group_limit()
                    &&& none_between(final(self).model().tids, target as int, g as int)
                },
                None => none_between(final(self).model().tids, target as int, group_limit()),
            },
    ;

    /// Candidate pages in the current group (superset of the real matches).
    fn pages(&mut self) -> (r: PageBits)
        requires
            old(self).wf(),
            old(self).at() is Some,
        ensures
            final(self).wf(),
            final(self).model() == old(self).model(),
            final(self).at() == old(self).at(),
            final(self).floor() == old(self).floor(),
            forall|t: Tid| #[trigger] final(self).model().tids.contains(t) && t.spec_group() == final(self).at()->0 ==> r.has(t.spec_page()),
    ;

    /// OR this cursor's exact matches on pages in `mask` into `out`, a bitmap
    /// over the current group's tuple space (`space.words()` long).
    fn or_into(&mut self, mask: &PageBits, space: &GroupSpace<'_>, out: &mut Vec<u64>)
        requires
            old(self).wf(),
            old(self).at() is Some,
            space.wf(),
            space.dir() == old(self).model().dir,
            space.group() == old(self).at()->0,
            old(out)@.len() >= space.spec_words(),
        ensures
            final(self).wf(),
            final(self).model() == old(self).model(),
            final(self).at() == old(self).at(),
            final(self).floor() == old(self).floor(),
            ored(final(self).model(), space.group(), *mask, old(out)@, final(out)@),
    ;

    /// Upper bound on the number of matches; AND evaluates cheapest first.
    fn cost(&self) -> (r: u64)
        requires
            self.wf(),
        ensures
            r == self.model().cost,
    ;
}

/// A bit of a group's tuple space is hit exactly if it is the slot of a match
/// on a page in the mask.
pub proof fn lemma_hit(m: Model, g: int, mask: PageBits, x: int)
    requires
        m.valid(),
        0 <= g < group_limit(),
    ensures
        hit(m, g, mask, x) <==> exists|t: Tid| m.tids.contains(t) && t.spec_group() == g && mask.has(t.spec_page()) && #[trigger] m.dir.slot(t) == x,
{
    if hit(m, g, mask, x) {
        lemma_tid_at(m.dir, g, x);
        let t = m.dir.tid_at(g, x);
        assert(m.dir.slot(t) == x);
    }
    if exists|t: Tid| m.tids.contains(t) && t.spec_group() == g && mask.has(t.spec_page()) && #[trigger] m.dir.slot(t) == x {
        let t = choose|t: Tid| m.tids.contains(t) && t.spec_group() == g && mask.has(t.spec_page()) && #[trigger] m.dir.slot(t) == x;
        lemma_slot(m.dir, t);
    }
}

} // verus!
