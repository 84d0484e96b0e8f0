//! The two bitmap levels.
//!
//! * [`PageBits`]: 256 bits, one per heap page in a group.
//! * [`OffsetBits`]: 512 bits, one per line pointer on a page (only the first
//!   [`MAX_OFFSET`](crate::tid::MAX_OFFSET) are used).

use vstd::prelude::*;
use vstd::std_specs::ops::{BitAndSpecImpl, BitOrSpecImpl, NotSpecImpl};
use std::ops::{BitAnd, BitOr, Not};
use crate::words;
use crate::words::{bit, lemma_word_ops, ones_of, word_bit};

verus! {

/// A maximal run of set bits: bits `lo..hi` are set, their neighbours clear.
pub open spec fn is_run(s: Seq<u64>, lo: int, hi: int) -> bool {
    &&& 0 <= lo < hi <= s.len() * 64
    &&& forall|x: int| lo <= x < hi ==> #[trigger] bit(s, x)
    &&& !bit(s, lo - 1)
    &&& !bit(s, hi)
}

/// The runs of set bits in a bitset, handed out one at a time; see
/// `PageBits::runs`.
pub struct Runs<const W: usize> {
    words: [u64; W],
    i: usize,
}

impl<const W: usize> Runs<W> {
    /// The bits walked.
    pub closed spec fn bits(self) -> Seq<u64> {
        self.words@
    }

    /// Runs before this position have been handed out.
    pub closed spec fn at(self) -> int {
        self.i as int
    }

    /// The position is at an end of the bitset or on a clear bit.
    pub open spec fn wf(self) -> bool {
        &&& self.bits().len() == W
        &&& W * 64 <= usize::MAX
        &&& 0 <= self.at() <= W * 64
        &&& self.at() == 0 || !bit(self.bits(), self.at())
    }

    fn over(words: [u64; W]) -> (r: Self)
        requires
            W * 64 <= usize::MAX,
        ensures
            r.wf(),
            r.bits() == words@,
            r.at() == 0,
    {
        Runs { words, i: 0 }
    }

    /// The next run, as `(lo, hi)`.
    pub fn next(&mut self) -> (r: Option<(usize, usize)>)
        requires
            old(self).wf(),
        ensures
            final(self).wf(),
            final(self).bits() == old(self).bits(),
            match r {
                Some((lo, hi)) => {
                    &&& is_run(old(self).bits(), lo as int, hi as int)
                    &&& old(self).at() <= lo
                    &&& forall|x: int| old(self).at() <= x < lo ==> !#[trigger] bit(old(self).bits(), x)
                    &&& final(self).at() == hi
                },
                None => {
                    &&& forall|x: int| old(self).at() <= x ==> !#[trigger] bit(old(self).bits(), x)
                    &&& final(self).at() == W * 64
                },
            },
    {
        let s: &[u64] = self.words.as_slice();
        let lo: usize = words::next_one(s, self.i);
        let hi: usize = words::next_zero(s, lo);
        proof {
            if lo < s@.len() * 64 {
                assert(bit(s@, lo as int));
                if lo as int > self.at() {
                    assert(!bit(s@, lo as int - 1));
                }
            }
        }
        let n: usize = s.len();
        self.i = hi;
        if lo < n * 64 {
            Some((lo, hi))
        } else {
            None
        }
    }

    /// The runs that are left, ascending.
    pub fn collect(self) -> (r: Vec<(usize, usize)>)
        requires
            self.wf(),
        ensures
            forall|k: int| 0 <= k < r@.len() ==> self.at() <= (#[trigger] r@[k]).0 && is_run(self.bits(), r@[k].0 as int, r@[k].1 as int),
            forall|k: int, m: int| 0 <= k < m < r@.len() ==> (#[trigger] r@[k]).1 < (#[trigger] r@[m]).0,
            forall|x: int| self.at() <= x && #[trigger] bit(self.bits(), x) ==> exists|k: int|
                0 <= k < r@.len() && (#[trigger] r@[k]).0 <= x < r@[k].1,
    {
        let mut it: Runs<W> = self;
        let mut out: Vec<(usize, usize)> = Vec::new();
        loop
            invariant
                it.wf(),
                it.bits() == self.bits(),
                self.at() <= it.at(),
                forall|k: int| 0 <= k < out@.len() ==> self.at() <= (#[trigger] out@[k]).0 && is_run(self.bits(), out@[k].0 as int, out@[k].1 as int) && out@[k].1 <= it.at(),
                forall|k: int, m: int| 0 <= k < m < out@.len() ==> (#[trigger] out@[k]).1 < (#[trigger] out@[m]).0,
                forall|x: int| self.at() <= x < it.at() && #[trigger] bit(self.bits(), x) ==> exists|k: int|
                    0 <= k < out@.len() && (#[trigger] out@[k]).0 <= x < out@[k].1,
            decreases W * 64 - it.at(),
        {
            let ghost was = out@;
            let ghost at = it.at();
            match it.next() {
                None => {
                    return out;
                },
                Some(run) => {
                    proof {
                        assert(bit(self.bits(), run.0 as int));
                        assert forall|k: int| 0 <= k < was.len() implies (#[trigger] was[k]).1 < run.0 by {
                            assert(!bit(self.bits(), was[k].1 as int));
                        }
                    }
                    out.push(run);
                    proof {
                        assert forall|x: int| self.at() <= x < it.at() && #[trigger] bit(self.bits(), x) implies exists|k: int|
                            0 <= k < out@.len() && (#[trigger] out@[k]).0 <= x < out@[k].1 by {
                            if x < at {
                                let k = choose|k: int| 0 <= k < was.len() && (#[trigger] was[k]).0 <= x < was[k].1;
                                assert(out@[k] == was[k]);
                            } else {
                                assert(out@[was.len() as int] == run);
                            }
                        }
                    }
                },
            }
        }
    }
}

/// Which of a group's 256 heap pages contain a match.
#[derive(Copy, Clone)]
pub struct PageBits(pub [u64; 4]);

impl PageBits {
    pub const WORDS: usize = 4;

    pub const BITS: usize = 256;

    /// Whether a bit is set.
    pub open spec fn has(self, i: int) -> bool {
        bit(self.0@, i)
    }

    /// No bit set.
    pub fn zero() -> (r: Self)
        ensures
            forall|x: int| !#[trigger] r.has(x),
    {
        let r: PageBits = PageBits([0, 0, 0, 0]);
        proof {
            assert forall|x: int| !#[trigger] r.has(x) by {
                lemma_word_ops(0, 0);
            }
        }
        r
    }

    pub fn is_zero(&self) -> (r: bool)
        ensures
            r == forall|i: int| !#[trigger] self.has(i),
    {
        let n: usize = words::next_one(self.0.as_slice(), 0);
        proof {
            assert(n < 256 ==> self.has(n as int));
        }
        n == 256
    }

    /// How many bits are set.
    pub fn count(&self) -> (r: u32)
        ensures
            r == ones_of(self.0@).len(),
    {
        words::count(self.0.as_slice()) as u32
    }

    pub fn set(&mut self, i: usize)
        requires
            i < 256,
        ensures
            forall|x: int| #[trigger] final(self).has(x) == (old(self).has(x) || x == i),
    {
        let w: u64 = words::with_bit(self.0[i / 64], i % 64);
        self.0[i / 64] = w;
        proof {
            let (o, n) = (old(self).0@, self.0@);
            assert forall|x: int| #[trigger] self.has(x) == (old(self).has(x) || x == i) by {
                if 0 <= x < 256 {
                    assert(x == (x / 64) * 64 + x % 64);
                    assert(word_bit(n[x / 64], x % 64) == (word_bit(o[x / 64], x % 64) || x == i));
                }
            }
        }
    }

    pub fn get(&self, i: usize) -> (r: bool)
        requires
            i < 256,
        ensures
            r == self.has(i as int),
    {
        words::get_bit(self.0.as_slice(), i)
    }

    /// The bits set in `self` and not in `other`.
    pub fn and_not(self, other: Self) -> (r: Self)
        ensures
            forall|x: int| #[trigger] r.has(x) == (self.has(x) && !other.has(x)),
    {
        let (a, b): ([u64; 4], [u64; 4]) = (self.0, other.0);
        let r: PageBits = PageBits([a[0] & !b[0], a[1] & !b[1], a[2] & !b[2], a[3] & !b[3]]);
        proof {
            assert forall|x: int| #[trigger] r.has(x) == (self.has(x) && !other.has(x)) by {
                if 0 <= x < 256 {
                    lemma_word_ops(a@[x / 64], b@[x / 64]);
                }
            }
        }
        r
    }

    /// The set bit indexes, ascending.
    pub fn for_each(&self) -> (r: Vec<usize>)
        ensures
            r@.map_values(|x: usize| x as int) == ones_of(self.0@),
    {
        words::ones(self.0.as_slice())
    }

    /// Lowest set bit.
    pub fn first(&self) -> (r: Option<usize>)
        ensures
            match r {
                Some(b) => self.has(b as int) && forall|x: int| x < b ==> !#[trigger] self.has(x),
                None => forall|x: int| !#[trigger] self.has(x),
            },
    {
        let n: usize = words::next_one(self.0.as_slice(), 0);
        if n < 256 {
            Some(n)
        } else {
            None
        }
    }

    /// Highest set bit.
    pub fn last(&self) -> (r: Option<usize>)
        ensures
            match r {
                Some(b) => self.has(b as int) && forall|x: int| b < x ==> !#[trigger] self.has(x),
                None => forall|x: int| !#[trigger] self.has(x),
            },
    {
        words::last_one(self.0.as_slice())
    }

    /// Maximal runs of set bits as `(lo, hi)` ranges, ascending.
    pub fn runs(&self) -> (r: Runs<4>)
        ensures
            r.wf(),
            r.bits() == self.0@,
            r.at() == 0,
    {
        Runs::over(self.0)
    }

    /// Set bit indexes, ascending.
    pub fn ones(&self) -> (r: Vec<usize>)
        ensures
            r@.map_values(|x: usize| x as int) == ones_of(self.0@),
    {
        self.for_each()
    }
}

impl Default for PageBits {
    fn default() -> (r: Self)
        ensures
            forall|x: int| !#[trigger] r.has(x),
    {
        PageBits::zero()
    }
}

impl BitAndSpecImpl for PageBits {
    open spec fn obeys_bitand_spec() -> bool {
        true
    }

    open spec fn bitand_req(self, rhs: Self) -> bool {
        true
    }

    open spec fn bitand_spec(self, rhs: Self) -> Self {
        PageBits([self.0@[0] & rhs.0@[0], self.0@[1] & rhs.0@[1], self.0@[2] & rhs.0@[2], self.0@[3] & rhs.0@[3]])
    }
}

impl BitAnd for PageBits {
    type Output = PageBits;

    fn bitand(self, rhs: Self) -> (r: Self)
        ensures
            forall|x: int| #[trigger] r.has(x) == (self.has(x) && rhs.has(x)),
    {
        let (a, b): ([u64; 4], [u64; 4]) = (self.0, rhs.0);
        let r: PageBits = PageBits([a[0] & b[0], a[1] & b[1], a[2] & b[2], a[3] & b[3]]);
        proof {
            assert forall|x: int| #[trigger] r.has(x) == (self.has(x) && rhs.has(x)) by {
                if 0 <= x < 256 {
                    lemma_word_ops(a@[x / 64], b@[x / 64]);
                }
            }
        }
        r
    }
}

impl BitOrSpecImpl for PageBits {
    open spec fn obeys_bitor_spec() -> bool {
        true
    }

    open spec fn bitor_req(self, rhs: Self) -> bool {
        true
    }

    open spec fn bitor_spec(self, rhs: Self) -> Self {
        PageBits([self.0@[0] | rhs.0@[0], self.0@[1] | rhs.0@[1], self.0@[2] | rhs.0@[2], self.0@[3] | rhs.0@[3]])
    }
}

impl BitOr for PageBits {
    type Output = PageBits;

    fn bitor(self, rhs: Self) -> (r: Self)
        ensures
            forall|x: int| #[trigger] r.has(x) == (self.has(x) || rhs.has(x)),
    {
        let (a, b): ([u64; 4], [u64; 4]) = (self.0, rhs.0);
        let r: PageBits = PageBits([a[0] | b[0], a[1] | b[1], a[2] | b[2], a[3] | b[3]]);
        proof {
            assert forall|x: int| #[trigger] r.has(x) == (self.has(x) || rhs.has(x)) by {
                if 0 <= x < 256 {
                    lemma_word_ops(a@[x / 64], b@[x / 64]);
                }
            }
        }
        r
    }
}

impl NotSpecImpl for PageBits {
    open spec fn obeys_not_spec() -> bool {
        true
    }

    open spec fn not_req(self) -> bool {
        true
    }

    open spec fn not_spec(self) -> Self {
        PageBits([!self.0@[0], !self.0@[1], !self.0@[2], !self.0@[3]])
    }
}

impl Not for PageBits {
    type Output = PageBits;

    fn not(self) -> (r: Self)
        ensures
            forall|x: int| #[trigger] r.has(x) == (0 <= x < 256 && !self.has(x)),
    {
        let a: [u64; 4] = self.0;
        let r: PageBits = PageBits([!a[0], !a[1], !a[2], !a[3]]);
        proof {
            assert forall|x: int| #[trigger] r.has(x) == (0 <= x < 256 && !self.has(x)) by {
                if 0 <= x < 256 {
                    lemma_word_ops(a@[x / 64], 0);
                }
            }
        }
        r
    }
}

/// Which line pointers on one heap page match (bit = offset - 1).
#[derive(Copy, Clone)]
pub struct OffsetBits(pub [u64; 8]);

impl OffsetBits {
    pub const WORDS: usize = 8;

    pub const BITS: usize = 512;

    /// Whether a bit is set.
    pub open spec fn has(self, i: int) -> bool {
        bit(self.0@, i)
    }

    /// No bit set.
    pub fn zero() -> (r: Self)
        ensures
            forall|x: int| !#[trigger] r.has(x),
    {
        let r: OffsetBits = OffsetBits([0, 0, 0, 0, 0, 0, 0, 0]);
        proof {
            assert forall|x: int| !#[trigger] r.has(x) by {
                lemma_word_ops(0, 0);
            }
        }
        r
    }

    pub fn is_zero(&self) -> (r: bool)
        ensures
            r == forall|i: int| !#[trigger] self.has(i),
    {
        let n: usize = words::next_one(self.0.as_slice(), 0);
        proof {
            assert(n < 512 ==> self.has(n as int));
        }
        n == 512
    }

    /// How many bits are set.
    pub fn count(&self) -> (r: u32)
        ensures
            r == ones_of(self.0@).len(),
    {
        words::count(self.0.as_slice()) as u32
    }

    pub fn set(&mut self, i: usize)
        requires
            i < 512,
        ensures
            forall|x: int| #[trigger] final(self).has(x) == (old(self).has(x) || x == i),
    {
        let w: u64 = words::with_bit(self.0[i / 64], i % 64);
        self.0[i / 64] = w;
        proof {
            let (o, n) = (old(self).0@, self.0@);
            assert forall|x: int| #[trigger] self.has(x) == (old(self).has(x) || x == i) by {
                if 0 <= x < 512 {
                    assert(x == (x / 64) * 64 + x % 64);
                    assert(word_bit(n[x / 64], x % 64) == (word_bit(o[x / 64], x % 64) || x == i));
                }
            }
        }
    }

    pub fn get(&self, i: usize) -> (r: bool)
        requires
            i < 512,
        ensures
            r == self.has(i as int),
    {
        words::get_bit(self.0.as_slice(), i)
    }

    /// The bits set in `self` and not in `other`.
    pub fn and_not(self, other: Self) -> (r: Self)
        ensures
            forall|x: int| #[trigger] r.has(x) == (self.has(x) && !other.has(x)),
    {
        let (a, b): ([u64; 8], [u64; 8]) = (self.0, other.0);
        let r: OffsetBits = OffsetBits([a[0] & !b[0], a[1] & !b[1], a[2] & !b[2], a[3] & !b[3], a[4] & !b[4], a[5] & !b[5], a[6] & !b[6], a[7] & !b[7]]);
        proof {
            assert forall|x: int| #[trigger] r.has(x) == (self.has(x) && !other.has(x)) by {
                if 0 <= x < 512 {
                    lemma_word_ops(a@[x / 64], b@[x / 64]);
                }
            }
        }
        r
    }

    /// The set bit indexes, ascending.
    pub fn for_each(&self) -> (r: Vec<usize>)
        ensures
            r@.map_values(|x: usize| x as int) == ones_of(self.0@),
    {
        words::ones(self.0.as_slice())
    }

    /// Lowest set bit.
    pub fn first(&self) -> (r: Option<usize>)
        ensures
            match r {
                Some(b) => self.has(b as int) && forall|x: int| x < b ==> !#[trigger] self.has(x),
                None => forall|x: int| !#[trigger] self.has(x),
            },
    {
        let n: usize = words::next_one(self.0.as_slice(), 0);
        if n < 512 {
            Some(n)
        } else {
            None
        }
    }

    /// Highest set bit.
    pub fn last(&self) -> (r: Option<usize>)
        ensures
            match r {
                Some(b) => self.has(b as int) && forall|x: int| b < x ==> !#[trigger] self.has(x),
                None => forall|x: int| !#[trigger] self.has(x),
            },
    {
        words::last_one(self.0.as_slice())
    }

    /// Maximal runs of set bits as `(lo, hi)` ranges, ascending.
    pub fn runs(&self) -> (r: Runs<8>)
        ensures
            r.wf(),
            r.bits() == self.0@,
            r.at() == 0,
    {
        Runs::over(self.0)
    }

    /// Set bit indexes, ascending.
    pub fn ones(&self) -> (r: Vec<usize>)
        ensures
            r@.map_values(|x: usize| x as int) == ones_of(self.0@),
    {
        self.for_each()
    }
}

impl Default for OffsetBits {
    fn default() -> (r: Self)
        ensures
            forall|x: int| !#[trigger] r.has(x),
    {
        OffsetBits::zero()
    }
}

impl BitAndSpecImpl for OffsetBits {
    open spec fn obeys_bitand_spec() -> bool {
        true
    }

    open spec fn bitand_req(self, rhs: Self) -> bool {
        true
    }

    open spec fn bitand_spec(self, rhs: Self) -> Self {
        OffsetBits([self.0@[0] & rhs.0@[0], self.0@[1] & rhs.0@[1], self.0@[2] & rhs.0@[2], self.0@[3] & rhs.0@[3], self.0@[4] & rhs.0@[4], self.0@[5] & rhs.0@[5], self.0@[6] & rhs.0@[6], self.0@[7] & rhs.0@[7]])
    }
}

impl BitAnd for OffsetBits {
    type Output = OffsetBits;

    fn bitand(self, rhs: Self) -> (r: Self)
        ensures
            forall|x: int| #[trigger] r.has(x) == (self.has(x) && rhs.has(x)),
    {
        let (a, b): ([u64; 8], [u64; 8]) = (self.0, rhs.0);
        let r: OffsetBits = OffsetBits([a[0] & b[0], a[1] & b[1], a[2] & b[2], a[3] & b[3], a[4] & b[4], a[5] & b[5], a[6] & b[6], a[7] & b[7]]);
        proof {
            assert forall|x: int| #[trigger] r.has(x) == (self.has(x) && rhs.has(x)) by {
                if 0 <= x < 512 {
                    lemma_word_ops(a@[x / 64], b@[x / 64]);
                }
            }
        }
        r
    }
}

impl BitOrSpecImpl for OffsetBits {
    open spec fn obeys_bitor_spec() -> bool {
        true
    }

    open spec fn bitor_req(self, rhs: Self) -> bool {
        true
    }

    open spec fn bitor_spec(self, rhs: Self) -> Self {
        OffsetBits([self.0@[0] | rhs.0@[0], self.0@[1] | rhs.0@[1], self.0@[2] | rhs.0@[2], self.0@[3] | rhs.0@[3], self.0@[4] | rhs.0@[4], self.0@[5] | rhs.0@[5], self.0@[6] | rhs.0@[6], self.0@[7] | rhs.0@[7]])
    }
}

impl BitOr for OffsetBits {
    type Output = OffsetBits;

    fn bitor(self, rhs: Self) -> (r: Self)
        ensures
            forall|x: int| #[trigger] r.has(x) == (self.has(x) || rhs.has(x)),
    {
        let (a, b): ([u64; 8], [u64; 8]) = (self.0, rhs.0);
        let r: OffsetBits = OffsetBits([a[0] | b[0], a[1] | b[1], a[2] | b[2], a[3] | b[3], a[4] | b[4], a[5] | b[5], a[6] | b[6], a[7] | b[7]]);
        proof {
            assert forall|x: int| #[trigger] r.has(x) == (self.has(x) || rhs.has(x)) by {
                if 0 <= x < 512 {
                    lemma_word_ops(a@[x / 64], b@[x / 64]);
                }
            }
        }
        r
    }
}

impl NotSpecImpl for OffsetBits {
    open spec fn obeys_not_spec() -> bool {
        true
    }

    open spec fn not_req(self) -> bool {
        true
    }

    open spec fn not_spec(self) -> Self {
        OffsetBits([!self.0@[0], !self.0@[1], !self.0@[2], !self.0@[3], !self.0@[4], !self.0@[5], !self.0@[6], !self.0@[7]])
    }
}

impl Not for OffsetBits {
    type Output = OffsetBits;

    fn not(self) -> (r: Self)
        ensures
            forall|x: int| #[trigger] r.has(x) == (0 <= x < 512 && !self.has(x)),
    {
        let a: [u64; 8] = self.0;
        let r: OffsetBits = OffsetBits([!a[0], !a[1], !a[2], !a[3], !a[4], !a[5], !a[6], !a[7]]);
        proof {
            assert forall|x: int| #[trigger] r.has(x) == (0 <= x < 512 && !self.has(x)) by {
                if 0 <= x < 512 {
                    lemma_word_ops(a@[x / 64], 0);
                }
            }
        }
        r
    }
}

} // verus!
