//! Shared, immutable byte buffers: a segment's dictionary and postings can
//! live in memory the segment doesn't own (a Postgres shared-memory mapping,
//! shared by every backend) as well as in its own `Vec`.

use vstd::prelude::*;
use std::ops::Range;
use std::sync::Arc;

verus! {

/// Memory a [`Bytes`] can point into.
pub trait Backing {
    /// What the memory holds.
    spec fn content(&self) -> Seq<u8>;

    fn bytes(&self) -> (r: &[u8])
        ensures
            r@ == self.content(),
    ;
}

impl Backing for Vec<u8> {
    open spec fn content(&self) -> Seq<u8> {
        self@
    }

    fn bytes(&self) -> (r: &[u8]) {
        self.as_slice()
    }
}

/// `Arc::clone`: another handle to the same value.
#[verifier::external_body]
fn share<B>(buf: &Arc<B>) -> (r: Arc<B>)
    ensures
        r == buf,
{
    Arc::clone(buf)
}

/// A cheaply clonable view of part of a [`Backing`].
pub struct Bytes<B: Backing> {
    buf: Arc<B>,
    start: usize,
    end: usize,
}

impl<B: Backing> View for Bytes<B> {
    type V = Seq<u8>;

    closed spec fn view(&self) -> Seq<u8> {
        self.buf.content().subrange(self.start as int, self.end as int)
    }
}

impl<B: Backing> Bytes<B> {
    /// The view lies in its memory.
    pub closed spec fn wf(&self) -> bool {
        self.start <= self.end <= self.buf.content().len()
    }

    /// All of the memory.
    pub fn new(buf: Arc<B>) -> (r: Bytes<B>)
        ensures
            r.wf(),
            r@ == buf.content(),
    {
        let len: usize = buf.bytes().len();
        let r: Bytes<B> = Bytes { buf, start: 0, end: len };
        proof {
            assert(r@ =~= buf.content());
        }
        r
    }

    /// A sub-range of this view.
    pub fn slice(&self, r: Range<usize>) -> (s: Bytes<B>)
        requires
            self.wf(),
            r.start <= r.end <= self@.len(),
        ensures
            s.wf(),
            s@ == self@.subrange(r.start as int, r.end as int),
    {
        let s: Bytes<B> = Bytes { buf: share(&self.buf), start: self.start + r.start, end: self.start + r.end };
        proof {
            assert(s@ =~= self@.subrange(r.start as int, r.end as int));
        }
        s
    }

    /// Another view of the same bytes.
    pub fn copy(&self) -> (s: Bytes<B>)
        requires
            self.wf(),
        ensures
            s.wf(),
            s@ == self@,
    {
        Bytes { buf: share(&self.buf), start: self.start, end: self.end }
    }

    /// The bytes.
    pub fn as_ref(&self) -> (r: &[u8])
        requires
            self.wf(),
        ensures
            r@ == self@,
    {
        vstd::slice::slice_subrange(self.buf.bytes(), self.start, self.end)
    }

    pub fn len(&self) -> (r: usize)
        requires
            self.wf(),
        ensures
            r == self@.len(),
    {
        self.end - self.start
    }
}

impl Bytes<Vec<u8>> {
    pub fn from_vec(v: Vec<u8>) -> (r: Bytes<Vec<u8>>)
        ensures
            r.wf(),
            r@ == v@,
    {
        Bytes::new(Arc::new(v))
    }
}

} // verus!
