//! Simulated Postgres heap layout, so benchmark tids have realistic density.
//!
//! Models `CREATE TABLE docs (id bigint, body text)` with default fillfactor:
//! 8 KB pages with a 24-byte page header, a 4-byte line pointer per tuple, a
//! 24-byte (MAXALIGNed) tuple header, the 8-byte id, and the text as a varlena
//! (1-byte header under 127 bytes, else 4). Tuples above the TOAST threshold
//! (~2 KB) keep an 18-byte TOAST pointer in the heap instead of the text. We
//! ignore inline compression, which would only pack more tuples per page.

use vstd::prelude::*;
use vstd::utf8::encode_utf8;
use crate::tid::{Tid, MAX_OFFSET};

verus! {

/// What a page holds below its header.
pub const PAGE_ROOM: usize = 8168;

pub const LINE_POINTER: usize = 4;

/// The tuple header and the id.
pub const TUPLE_FIXED: usize = 32;

pub const TOAST_TUPLE_THRESHOLD: usize = 2032;

/// A tuple whose text is a TOAST pointer.
pub const TOASTED_TUPLE: usize = 56;

pub struct Layout {
    pub tids: Vec<Tid>,
    pub pages: usize,
    pub toasted: usize,
}

/// `n` rounded up to a multiple of 8.
pub open spec fn aligned(n: int) -> int {
    (n + 7) / 8 * 8
}

/// The size of a tuple with a text of `len` bytes in the heap.
pub open spec fn plain_size(len: int) -> int {
    aligned(TUPLE_FIXED + (if len < 127 { 1int } else { 4int }) + len)
}

/// Whether the text goes to TOAST.
pub open spec fn is_toasted(len: int) -> bool {
    plain_size(len) > TOAST_TUPLE_THRESHOLD
}

/// What a tuple takes of its page, with its line pointer.
pub open spec fn need(len: int) -> int {
    (if is_toasted(len) { TOASTED_TUPLE as int } else { plain_size(len) }) + LINE_POINTER
}

/// Where a tuple goes: its page, its line pointer, and what is left of the
/// page.
pub ghost struct Spot {
    pub block: int,
    pub offset: int,
    pub free: int,
}

/// The spot of the next tuple: on the same page while it fits, else on the
/// next.
pub open spec fn next_spot(s: Spot, len: int) -> Spot {
    if need(len) > s.free || s.offset == MAX_OFFSET {
        Spot { block: s.block + 1, offset: 1, free: PAGE_ROOM - need(len) }
    } else {
        Spot { block: s.block, offset: s.offset + 1, free: s.free - need(len) }
    }
}

/// The spot of the last of the first `n` tuples.
pub open spec fn spot(docs: Seq<&str>, n: int) -> Spot
    decreases n,
{
    if n <= 0 {
        Spot { block: 0, offset: 0, free: PAGE_ROOM as int }
    } else {
        next_spot(spot(docs, n - 1), encode_utf8(docs[n - 1]@).len() as int)
    }
}

/// How many of the first `n` texts go to TOAST.
pub open spec fn toasts(docs: Seq<&str>, n: int) -> int
    decreases n,
{
    if n <= 0 {
        0
    } else {
        toasts(docs, n - 1) + (if is_toasted(encode_utf8(docs[n - 1]@).len() as int) { 1int } else { 0int })
    }
}

fn maxalign(n: usize) -> (r: usize)
    requires
        n <= usize::MAX - 7,
    ensures
        r == aligned(n as int),
{
    (n + 7) / 8 * 8
}

/// Lay the documents out on heap pages, in order.
pub fn layout(docs: &[&str]) -> (r: Layout)
    requires
        docs@.len() < u32::MAX,
        forall|i: int| 0 <= i < docs@.len() ==> encode_utf8((#[trigger] docs@[i])@).len() <= usize::MAX - 64,
    ensures
        r.tids@.len() == docs@.len(),
        forall|i: int| 0 <= i < docs@.len() ==> (#[trigger] r.tids@[i]).valid() && r.tids@[i].block == spot(docs@, i + 1).block && r.tids@[i].offset
            == spot(docs@, i + 1).offset,
        forall|i: int, j: int| 0 <= i < j < r.tids@.len() ==> (#[trigger] r.tids@[i]).before(#[trigger] r.tids@[j]),
        r.pages == spot(docs@, docs@.len() as int).block + 1,
        r.toasted == toasts(docs@, docs@.len() as int),
{
    let mut tids: Vec<Tid> = Vec::new();
    let mut block: u32 = 0;
    let mut offset: u16 = 0;
    let mut free: usize = PAGE_ROOM;
    let mut toasted: usize = 0;
    let mut i: usize = 0;
    while i < docs.len()
        invariant
            i <= docs@.len() < u32::MAX,
            forall|k: int| 0 <= k < docs@.len() ==> encode_utf8((#[trigger] docs@[k])@).len() <= usize::MAX - 64,
            spot(docs@, i as int) == (Spot { block: block as int, offset: offset as int, free: free as int }),
            block <= i,
            offset <= MAX_OFFSET,
            free <= PAGE_ROOM,
            toasted <= i,
            toasted == toasts(docs@, i as int),
            tids@.len() == i,
            forall|k: int| 0 <= k < i ==> (#[trigger] tids@[k]).valid() && tids@[k].block == spot(docs@, k + 1).block && tids@[k].offset == spot(
                docs@,
                k + 1,
            ).offset,
            forall|k: int, m: int| 0 <= k < m < i ==> (#[trigger] tids@[k]).before(#[trigger] tids@[m]),
            forall|k: int| 0 <= k < i ==> (#[trigger] tids@[k]).block < block || (tids@[k].block == block && tids@[k].offset <= offset),
        decreases docs@.len() - i,
    {
        let len: usize = docs[i].as_bytes().len();
        proof {
            assert(len == encode_utf8(docs@[i as int]@).len());
        }
        let varlena: usize = if len < 127 {
            1 + len
        } else {
            4 + len
        };
        let mut tuple: usize = maxalign(TUPLE_FIXED + varlena);
        if tuple > TOAST_TUPLE_THRESHOLD {
            tuple = TOASTED_TUPLE;
            toasted = toasted + 1;
        }
        let needed: usize = tuple + LINE_POINTER;
        proof {
            assert(needed == need(len as int));
        }
        if needed > free || offset == MAX_OFFSET {
            block = block + 1;
            offset = 0;
            free = PAGE_ROOM;
        }
        offset = offset + 1;
        free = free - needed;
        tids.push(Tid::new(block, offset));
        i = i + 1;
    }
    Layout { tids, pages: block as usize + 1, toasted }
}

/// Tuples are aligned to 8 bytes, with no more than that takes.
pub proof fn tuples_are_aligned(n: int)
    ensures
        aligned(n) % 8 == 0,
        n <= aligned(n) < n + 8,
{
}

/// A text of up to 1996 bytes stays in the heap and takes its bytes, at most
/// 36 more, the alignment and its line pointer; a longer one takes 60.
pub proof fn tuples_take_their_text(len: int)
    requires
        0 <= len,
    ensures
        is_toasted(len) <==> len > 1996,
        len > 1996 ==> need(len) == 60,
        127 <= len <= 1996 ==> need(len) % 8 == 4 && len + 40 <= need(len) < len + 48,
        len < 127 ==> need(len) % 8 == 4 && len + 37 <= need(len) < len + 45,
        need(len) <= 2036,
{
    tuples_are_aligned(33 + len);
    tuples_are_aligned(36 + len);
}

/// What the tuples from `i` to `n` take.
pub open spec fn taken(docs: Seq<&str>, i: int, n: int) -> int
    decreases n - i,
{
    if i >= n {
        0
    } else {
        taken(docs, i, n - 1) + need(encode_utf8(docs[n - 1]@).len() as int)
    }
}

/// The tuples of a page fit it, and a page is left only when the next tuple
/// does not fit it or it has no line pointer left.
pub proof fn pages_are_filled(docs: Seq<&str>, n: int) -> (first: int)
    requires
        0 < n <= docs.len(),
    ensures
        0 <= first < n,
        forall|k: int| first < k <= n ==> (#[trigger] spot(docs, k)).block == spot(docs, n).block,
        spot(docs, n).offset == n - first,
        n - first <= 291,
        taken(docs, first, n) <= 8168,
        spot(docs, n).free == 8168 - taken(docs, first, n),
        first == 0 ==> spot(docs, n).block == 0,
        first > 0 ==> spot(docs, first).block == spot(docs, n).block - 1,
        first > 0 ==> spot(docs, first).offset == 291 || need(encode_utf8(docs[first]@).len() as int) > spot(docs, first).free,
    decreases n,
{
    let len = encode_utf8(docs[n - 1]@).len() as int;
    tuples_take_their_text(len);
    if n == 1 {
        assert(spot(docs, 0) == (Spot { block: 0, offset: 0, free: PAGE_ROOM as int }));
        assert(taken(docs, 0, 0) == 0);
        assert(taken(docs, 0, 1) == taken(docs, 0, 0) + need(len));
        0
    } else {
        let f = pages_are_filled(docs, n - 1);
        let s = spot(docs, n - 1);
        if need(len) > s.free || s.offset == MAX_OFFSET {
            assert(taken(docs, n - 1, n - 1) == 0);
            assert(taken(docs, n - 1, n) == need(len));
            n - 1
        } else {
            f
        }
    }
}

} // verus!
