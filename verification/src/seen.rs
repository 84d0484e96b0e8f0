//! Tuples already seen.

use vstd::prelude::*;
use std::collections::HashSet;
use crate::tid::Tid;

verus! {

/// What a set of numbers holds.
pub uninterp spec fn fx_items(s: HashSet<u64, rustc_hash::FxBuildHasher>) -> Set<u64>;

/// `FxHashSet::default`: a set that holds nothing.
#[verifier::external_body]
fn fx_set_new() -> (r: HashSet<u64, rustc_hash::FxBuildHasher>)
    ensures
        fx_items(r) == Set::<u64>::empty(),
{
    rustc_hash::FxHashSet::default()
}

/// `HashSet::insert`: the number is in the set from now on, and all others
/// that were; says whether it is new.
#[verifier::external_body]
fn fx_set_insert(s: &mut HashSet<u64, rustc_hash::FxBuildHasher>, x: u64) -> (r: bool)
    ensures
        fx_items(*final(s)) == fx_items(*old(s)).insert(x),
        r == !fx_items(*old(s)).contains(x),
{
    s.insert(x)
}

/// A tuple as one number.
pub open spec fn number_of(t: Tid) -> u64 {
    (t.block * 0x1_0000 + t.offset) as u64
}

/// A set of tuples.
pub struct Seen {
    numbers: HashSet<u64, rustc_hash::FxBuildHasher>,
}

impl Seen {
    /// The tuples in the set.
    pub closed spec fn tids(&self) -> Set<Tid> {
        Set::new(|t: Tid| fx_items(self.numbers).contains(number_of(t)))
    }

    pub fn new() -> (r: Self)
        ensures
            r.tids() == Set::<Tid>::empty(),
    {
        let r: Seen = Seen { numbers: fx_set_new() };
        proof {
            assert(r.tids() =~= Set::<Tid>::empty());
        }
        r
    }

    /// Add a tuple; says whether it is new.
    pub fn insert(&mut self, t: Tid) -> (r: bool)
        ensures
            final(self).tids() == old(self).tids().insert(t),
            r == !old(self).tids().contains(t),
    {
        let ghost before = *self;
        let n: u64 = t.block as u64 * 0x1_0000 + t.offset as u64;
        let r: bool = fx_set_insert(&mut self.numbers, n);
        proof {
            assert forall|x: Tid| number_of(x) == n implies x == t by {
                assert(x.block == t.block && x.offset == t.offset);
            }
            assert(self.tids() =~= before.tids().insert(t));
        }
        r
    }
}

} // verus!
