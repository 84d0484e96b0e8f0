//! The byte layout of a term's postings.
//!
//! ```text
//! term entry  := doc_count body
//! sparse body := key_0 (key_i - key_{i-1})*            -- doc_count <= SKIP_BLOCK
//!              | skip* block*                          -- otherwise
//! skip        := first_key_delta block_len             -- one per SKIP_BLOCK keys
//! block       := (key_i - key_{i-1})*                  -- first key lives in the skip
//! groups body := n_groups group*
//! group       := group_delta body_len group_body       -- body_len lets seek skip
//! group_body  := u8(n_pages - 1)
//!                ( u8 page * n_pages | 32-byte PageBits )  -- list if n_pages <= 31
//!                bitstream                                 -- LSB-first, byte padded:
//!                                                          -- width(page) bits per page,
//!                                                          -- ascending page order
//! ```
//!
//! The functions here say what such bytes mean; integers are LEB128 varints
//! unless noted.

use vstd::prelude::*;
use crate::space::Widths;
use crate::stream::stream_bit;
use crate::tid::Tid;
use crate::varint::{embeds, leb_len, leb_ok, leb_val, lemma_leb_embeds, lemma_leb_len_bound, two_64};

verus! {

/// Page sets with at most this many pages are stored as a byte list; above it
/// the 32-byte bitmap is never larger.
pub const PAGE_LIST_MAX: usize = 31;

/// Sparse lists longer than this get a skip table, one entry per block of
/// this many keys.
pub const SKIP_BLOCK: usize = 64;

/// Keys are below this: 2^32 blocks of 512 line pointers.
pub open spec fn key_limit() -> int {
    0x200_0000_0000
}

/// The tid of a key.
pub open spec fn tid_of_key(k: int) -> Tid {
    Tid { block: (k / 512) as u32, offset: (k % 512 + 1) as u16 }
}

// ---------------------------------------------------------------------------
// A run of varints
// ---------------------------------------------------------------------------

/// Where the `i`th varint of a run that starts at `pos` stands.
pub open spec fn gap_pos(b: Seq<u8>, pos: int, i: int) -> int
    decreases i,
{
    if i <= 0 {
        pos
    } else {
        gap_pos(b, pos, i - 1) + leb_len(b, gap_pos(b, pos, i - 1))
    }
}

/// The `i`th varint of the run.
pub open spec fn gap(b: Seq<u8>, pos: int, i: int) -> int {
    leb_val(b, gap_pos(b, pos, i)) as int
}

/// `first` plus the first `i` varints of the run.
pub open spec fn gap_key(b: Seq<u8>, pos: int, first: int, i: int) -> int
    decreases i,
{
    if i <= 0 {
        first
    } else {
        gap_key(b, pos, first, i - 1) + gap(b, pos, i - 1)
    }
}

/// A whole varint stands at `pos`, and its number fits a `u64`.
pub open spec fn num_ok(b: Seq<u8>, pos: int) -> bool {
    leb_ok(b, pos) && leb_val(b, pos) < two_64()
}

/// The run has `n` varints.
pub open spec fn gaps_ok(b: Seq<u8>, pos: int, n: int) -> bool {
    forall|i: int| 0 <= i < n ==> num_ok(b, #[trigger] gap_pos(b, pos, i))
}

pub proof fn lemma_gap_pos_bound(b: Seq<u8>, pos: int, n: int)
    requires
        gaps_ok(b, pos, n),
        0 <= n,
        0 <= pos <= b.len(),
    ensures
        pos <= gap_pos(b, pos, n) <= b.len(),
    decreases n,
{
    if n > 0 {
        lemma_gap_pos_bound(b, pos, n - 1);
        lemma_leb_len_bound(b, gap_pos(b, pos, n - 1));
    }
}

/// A run reads the same wherever its bytes stand.
pub proof fn lemma_gaps_embed(a: Seq<u8>, b: Seq<u8>, off: int, pos: int, n: int)
    requires
        embeds(a, b, off),
        gaps_ok(a, pos, n),
        0 <= n,
    ensures
        gaps_ok(b, off + pos, n),
        forall|i: int| 0 <= i <= n ==> #[trigger] gap_pos(b, off + pos, i) == off + gap_pos(a, pos, i),
        forall|i: int| 0 <= i < n ==> #[trigger] gap(b, off + pos, i) == gap(a, pos, i),
        forall|i: int, first: int| 0 <= i <= n ==> #[trigger] gap_key(b, off + pos, first, i) == gap_key(a, pos, first, i),
    decreases n,
{
    if n > 0 {
        lemma_gaps_embed(a, b, off, pos, n - 1);
        let p = gap_pos(a, pos, n - 1);
        assert(num_ok(a, p));
        lemma_leb_embeds(a, b, off, p);
        assert(gap_pos(b, off + pos, n - 1) == off + p);
        assert forall|i: int, first: int| 0 <= i <= n implies #[trigger] gap_key(b, off + pos, first, i) == gap_key(a, pos, first, i) by {
            if i == n {
                assert(gap(b, off + pos, n - 1) == gap(a, pos, n - 1));
                assert(gap_key(b, off + pos, first, n - 1) == gap_key(a, pos, first, n - 1));
            }
        }
    }
}

// ---------------------------------------------------------------------------
// Sparse lists
// ---------------------------------------------------------------------------

/// Blocks of a list of `n` keys.
pub open spec fn block_count(n: int) -> int {
    if n <= 64 {
        1
    } else {
        (n + 63) / 64
    }
}

/// Keys of block `b`.
pub open spec fn keys_in_block(n: int, b: int) -> int {
    if n - b * 64 < 64 {
        n - b * 64
    } else {
        64
    }
}

/// The first keys' deltas up to entry `b` of the skip table, summed.
pub open spec fn skip_first(d: Seq<u8>, pos: int, b: int) -> int
    decreases b + 1,
{
    if b < 0 {
        0
    } else {
        skip_first(d, pos, b - 1) + gap(d, pos, 2 * b)
    }
}

/// The block lengths before entry `b` of the skip table, summed.
pub open spec fn skip_len(d: Seq<u8>, pos: int, b: int) -> int
    decreases b,
{
    if b <= 0 {
        0
    } else {
        skip_len(d, pos, b - 1) + gap(d, pos, 2 * (b - 1) + 1)
    }
}

/// The first key of block `b`.
pub open spec fn block_first(d: Seq<u8>, pos: int, n: int, b: int) -> int {
    if n <= 64 {
        gap(d, pos, 0)
    } else {
        skip_first(d, pos, b)
    }
}

/// Where the other keys of block `b` start.
pub open spec fn block_pos(d: Seq<u8>, pos: int, n: int, b: int) -> int {
    if n <= 64 {
        gap_pos(d, pos, 1)
    } else {
        gap_pos(d, pos, 2 * block_count(n)) + skip_len(d, pos, b)
    }
}

/// Key `j` of block `b`.
pub open spec fn block_key(d: Seq<u8>, pos: int, n: int, b: int, j: int) -> int {
    gap_key(d, block_pos(d, pos, n, b), block_first(d, pos, n, b), j)
}

/// The `i`th key of the list.
pub open spec fn sparse_key(d: Seq<u8>, pos: int, n: int, i: int) -> int {
    block_key(d, pos, n, i / 64, i % 64)
}

/// A block's bytes are all there.
pub open spec fn block_ok(d: Seq<u8>, pos: int, n: int, b: int) -> bool {
    &&& 0 <= block_pos(d, pos, n, b) <= d.len()
    &&& gaps_ok(d, block_pos(d, pos, n, b), keys_in_block(n, b) - 1)
}

/// A list of `n` ascending keys stands at `pos`.
pub open spec fn sparse_ok(d: Seq<u8>, pos: int, n: int) -> bool {
    &&& 0 <= pos <= d.len()
    &&& 1 <= n
    &&& gaps_ok(d, pos, if n <= 64 { 1 } else { 2 * block_count(n) })
    &&& forall|b: int| 0 <= b < block_count(n) ==> #[trigger] block_ok(d, pos, n, b)
    &&& forall|i: int| 0 <= i < n ==> 0 <= #[trigger] sparse_key(d, pos, n, i) < key_limit()
    &&& forall|i: int, j: int| 0 <= i < j < n ==> #[trigger] sparse_key(d, pos, n, i) < #[trigger] sparse_key(d, pos, n, j)
}

/// The tids of a sparse list.
pub open spec fn sparse_has(d: Seq<u8>, pos: int, n: int, t: Tid) -> bool {
    exists|i: int| 0 <= i < n && t == tid_of_key(#[trigger] sparse_key(d, pos, n, i))
}

/// The skip table reads the same wherever its bytes stand.
pub proof fn lemma_skips_embed(a: Seq<u8>, b: Seq<u8>, off: int, pos: int, n: int)
    requires
        embeds(a, b, off),
        gaps_ok(a, pos, 2 * n),
        0 <= n,
    ensures
        forall|k: int| k < n ==> #[trigger] skip_first(b, off + pos, k) == skip_first(a, pos, k),
        forall|k: int| k <= n ==> #[trigger] skip_len(b, off + pos, k) == skip_len(a, pos, k),
    decreases n,
{
    lemma_gaps_embed(a, b, off, pos, 2 * n);
    if n > 0 {
        assert(gaps_ok(a, pos, 2 * (n - 1)));
        lemma_skips_embed(a, b, off, pos, n - 1);
        assert(gap(b, off + pos, 2 * (n - 1)) == gap(a, pos, 2 * (n - 1)));
        assert(gap(b, off + pos, 2 * (n - 1) + 1) == gap(a, pos, 2 * (n - 1) + 1));
        assert(skip_first(b, off + pos, n - 2) == skip_first(a, pos, n - 2));
        assert(skip_len(b, off + pos, n - 1) == skip_len(a, pos, n - 1));
    }
}

/// A sparse list reads the same wherever its bytes stand.
pub proof fn lemma_sparse_embed(a: Seq<u8>, b: Seq<u8>, off: int, pos: int, n: int)
    requires
        embeds(a, b, off),
        sparse_ok(a, pos, n),
    ensures
        sparse_ok(b, off + pos, n),
        forall|i: int| 0 <= i < n ==> #[trigger] sparse_key(b, off + pos, n, i) == sparse_key(a, pos, n, i),
{
    let nb = block_count(n);
    if n <= 64 {
        lemma_gaps_embed(a, b, off, pos, 1);
    } else {
        lemma_gaps_embed(a, b, off, pos, 2 * nb);
        lemma_skips_embed(a, b, off, pos, nb);
    }
    assert forall|k: int| 0 <= k < nb implies #[trigger] block_ok(b, off + pos, n, k) && block_pos(b, off + pos, n, k) == off + block_pos(a, pos, n, k)
        && block_first(b, off + pos, n, k) == block_first(a, pos, n, k) by {
        assert(block_ok(a, pos, n, k));
        assert(keys_in_block(n, k) >= 1);
        assert(block_pos(b, off + pos, n, k) == off + block_pos(a, pos, n, k));
        if n > 64 {
            assert(skip_first(b, off + pos, k) == skip_first(a, pos, k));
        }
        lemma_gaps_embed(a, b, off, block_pos(a, pos, n, k), keys_in_block(n, k) - 1);
    }
    assert forall|i: int| 0 <= i < n implies #[trigger] sparse_key(b, off + pos, n, i) == sparse_key(a, pos, n, i) by {
        let k = i / 64;
        assert(block_ok(b, off + pos, n, k));
        assert(block_ok(a, pos, n, k));
        lemma_gaps_embed(a, b, off, block_pos(a, pos, n, k), keys_in_block(n, k) - 1);
    }
    assert forall|i: int, j: int| 0 <= i < j < n implies #[trigger] sparse_key(b, off + pos, n, i) < #[trigger] sparse_key(b, off + pos, n, j) by {
        assert(sparse_key(a, pos, n, i) < sparse_key(a, pos, n, j));
    }
}

// ---------------------------------------------------------------------------
// Groups
// ---------------------------------------------------------------------------

/// Where group header `i` stands.
pub open spec fn head_pos(d: Seq<u8>, pos: int, i: int) -> int
    decreases i,
{
    if i <= 0 {
        pos
    } else {
        let p = head_pos(d, pos, i - 1);
        gap_pos(d, p, 2) + gap(d, p, 1)
    }
}

/// Where the body of group `i` stands.
pub open spec fn body_pos(d: Seq<u8>, pos: int, i: int) -> int {
    gap_pos(d, head_pos(d, pos, i), 2)
}

/// The number of group `i`.
pub open spec fn group_no(d: Seq<u8>, pos: int, i: int) -> int
    decreases i + 1,
{
    if i < 0 {
        0
    } else {
        group_no(d, pos, i - 1) + gap(d, head_pos(d, pos, i), 0)
    }
}

/// The pages of a group body.
pub open spec fn body_page(d: Seq<u8>, at: int, p: int) -> bool {
    if d[at] + 1 <= 31 {
        exists|k: int| 0 <= k < d[at] + 1 && #[trigger] d[at + 1 + k] == p
    } else {
        0 <= p < 256 && stream_bit(d, (at + 1) * 8 + p)
    }
}

/// Bytes of a group body before its bitstream.
pub open spec fn body_head(d: Seq<u8>, at: int) -> int {
    1 + if d[at] + 1 <= 31 {
        d[at] + 1
    } else {
        32
    }
}

/// The set of pages of a group body.
pub open spec fn body_pages(d: Seq<u8>, at: int) -> Set<int> {
    Set::new(|p: int| body_page(d, at, p))
}

/// Bits that the pages before `p` take in the bitstream.
pub open spec fn page_offset(w: Widths, g: int, pages: Set<int>, p: int) -> int
    decreases p,
{
    if p <= 0 {
        0
    } else {
        page_offset(w, g, pages, p - 1) + if pages.contains(p - 1) {
            w.width(g * 256 + (p - 1))
        } else {
            0
        }
    }
}

/// A group body's tuples.
pub open spec fn body_has(d: Seq<u8>, at: int, w: Widths, g: int, p: int, b: int) -> bool {
    &&& body_page(d, at, p)
    &&& 0 <= b < w.width(g * 256 + p)
    &&& stream_bit(d, (at + body_head(d, at)) * 8 + page_offset(w, g, body_pages(d, at), p) + b)
}

/// A group body of `len` bytes stands at `at`.
pub open spec fn body_ok(d: Seq<u8>, at: int, len: int, w: Widths, g: int) -> bool {
    &&& 0 <= at
    &&& 1 <= len
    &&& at + len <= d.len()
    &&& body_head(d, at) * 8 + page_offset(w, g, body_pages(d, at), 256) <= len * 8
}

/// Group `i` is whole.
pub open spec fn head_ok(d: Seq<u8>, pos: int, w: Widths, i: int) -> bool {
    &&& 0 <= head_pos(d, pos, i) <= d.len()
    &&& gaps_ok(d, head_pos(d, pos, i), 2)
    &&& body_ok(d, body_pos(d, pos, i), gap(d, head_pos(d, pos, i), 1), w, group_no(d, pos, i))
    &&& 0 <= group_no(d, pos, i) < 0x100_0000
    &&& i > 0 ==> group_no(d, pos, i - 1) < group_no(d, pos, i)
}

/// `n` groups stand at `pos`.
pub open spec fn groups_ok(d: Seq<u8>, pos: int, w: Widths, n: int) -> bool {
    &&& 0 <= pos <= d.len()
    &&& 0 <= n
    &&& forall|i: int| 0 <= i < n ==> #[trigger] head_ok(d, pos, w, i)
}

/// The tids of `n` groups.
pub open spec fn groups_has(d: Seq<u8>, pos: int, w: Widths, n: int, t: Tid) -> bool {
    &&& t.offset >= 1
    &&& exists|i: int|
        0 <= i < n && #[trigger] group_no(d, pos, i) == t.spec_group() && body_has(
            d,
            body_pos(d, pos, i),
            w,
            t.spec_group(),
            t.spec_page(),
            t.spec_bit(),
        )
}

/// A bit reads the same wherever its byte stands.
pub proof fn lemma_stream_embed(a: Seq<u8>, b: Seq<u8>, off: int, i: int)
    requires
        embeds(a, b, off),
        0 <= i < a.len() * 8,
    ensures
        stream_bit(b, off * 8 + i) == stream_bit(a, i),
{
    assert((off * 8 + i) / 8 == off + i / 8);
    assert((off * 8 + i) % 8 == i % 8);
    assert(a[i / 8] == b[off + i / 8]);
}

pub proof fn lemma_page_offset_mono(w: Widths, g: int, pages: Set<int>, p: int, q: int)
    requires
        p <= q,
    ensures
        0 <= page_offset(w, g, pages, p) <= page_offset(w, g, pages, q),
    decreases q,
{
    if q > 0 {
        lemma_page_offset_mono(w, g, pages, if p < q { p } else { p - 1 }, q - 1);
    }
}

/// A page's bits lie in the body's bitstream.
pub proof fn lemma_page_offset_fits(w: Widths, g: int, pages: Set<int>, p: int)
    requires
        0 <= p < 256,
        pages.contains(p),
    ensures
        0 <= page_offset(w, g, pages, p),
        page_offset(w, g, pages, p) + w.width(g * 256 + p) <= page_offset(w, g, pages, 256),
{
    lemma_page_offset_mono(w, g, pages, 0, p);
    lemma_page_offset_mono(w, g, pages, p + 1, 256);
    assert(page_offset(w, g, pages, p + 1) == page_offset(w, g, pages, p) + w.width(g * 256 + p));
}

/// A group body reads the same wherever its bytes stand.
pub proof fn lemma_body_embed(a: Seq<u8>, b: Seq<u8>, off: int, at: int, len: int, w: Widths, g: int)
    requires
        embeds(a, b, off),
        body_ok(a, at, len, w, g),
    ensures
        body_ok(b, off + at, len, w, g),
        forall|p: int, x: int| body_has(b, off + at, w, g, p, x) == body_has(a, at, w, g, p, x),
{
    assert(a[at] == b[off + at]);
    lemma_page_offset_mono(w, g, body_pages(a, at), 0, 256);
    let head = body_head(a, at);
    assert(head <= len);
    assert forall|p: int| body_page(b, off + at, p) == body_page(a, at, p) by {
        if a[at] + 1 <= 31 {
            if body_page(a, at, p) {
                let k = choose|k: int| 0 <= k < a[at] + 1 && #[trigger] a[at + 1 + k] == p;
                assert(a[at + 1 + k] == b[off + (at + 1 + k)]);
                assert(b[off + at + 1 + k] == p);
            }
            if body_page(b, off + at, p) {
                let k = choose|k: int| 0 <= k < b[off + at] + 1 && #[trigger] b[off + at + 1 + k] == p;
                assert(a[at + 1 + k] == b[off + (at + 1 + k)]);
            }
        } else if 0 <= p < 256 {
            lemma_stream_embed(a, b, off, (at + 1) * 8 + p);
            assert(off * 8 + ((at + 1) * 8 + p) == (off + at + 1) * 8 + p);
        }
    }
    assert(body_pages(b, off + at) =~= body_pages(a, at));
    assert forall|p: int, x: int| body_has(b, off + at, w, g, p, x) == body_has(a, at, w, g, p, x) by {
        if body_page(a, at, p) && 0 <= x < w.width(g * 256 + p) {
            lemma_page_offset_fits(w, g, body_pages(a, at), p);
            let i = (at + head) * 8 + page_offset(w, g, body_pages(a, at), p) + x;
            lemma_stream_embed(a, b, off, i);
            assert(off * 8 + i == (off + at + head) * 8 + page_offset(w, g, body_pages(a, at), p) + x);
        }
    }
}

/// Groups read the same wherever their bytes stand.
pub proof fn lemma_groups_embed(a: Seq<u8>, b: Seq<u8>, off: int, pos: int, w: Widths, n: int)
    requires
        embeds(a, b, off),
        groups_ok(a, pos, w, n),
    ensures
        groups_ok(b, off + pos, w, n),
        forall|i: int| 0 <= i <= n ==> #[trigger] head_pos(b, off + pos, i) == off + head_pos(a, pos, i),
        forall|i: int| i < n ==> #[trigger] group_no(b, off + pos, i) == group_no(a, pos, i),
        forall|t: Tid| #[trigger] groups_has(b, off + pos, w, n, t) == groups_has(a, pos, w, n, t),
    decreases n,
{
    if n > 0 {
        assert forall|i: int| 0 <= i < n - 1 implies #[trigger] head_ok(a, pos, w, i) by {}
        lemma_groups_embed(a, b, off, pos, w, n - 1);
        let h = head_pos(a, pos, n - 1);
        assert(head_ok(a, pos, w, n - 1));
        assert(head_pos(b, off + pos, n - 1) == off + h);
        lemma_gaps_embed(a, b, off, h, 2);
        let g = group_no(a, pos, n - 1);
        assert(group_no(b, off + pos, n - 2) == group_no(a, pos, n - 2));
        assert(gap(b, off + h, 0) == gap(a, h, 0));
        assert(gap(b, off + h, 1) == gap(a, h, 1));
        assert(gap_pos(b, off + h, 2) == off + gap_pos(a, h, 2));
        lemma_body_embed(a, b, off, body_pos(a, pos, n - 1), gap(a, h, 1), w, g);
        assert(head_ok(b, off + pos, w, n - 1));
        assert forall|t: Tid| #[trigger] groups_has(b, off + pos, w, n, t) == groups_has(a, pos, w, n, t) by {
            lemma_groups_has_step(a, pos, w, n, t);
            lemma_groups_has_step(b, off + pos, w, n, t);
        }
    }
}

/// The tids of `n` groups are those of the first `n - 1` and of the last.
pub proof fn lemma_groups_has_step(d: Seq<u8>, pos: int, w: Widths, n: int, t: Tid)
    requires
        n > 0,
    ensures
        groups_has(d, pos, w, n, t) <==> groups_has(d, pos, w, n - 1, t) || (t.offset >= 1 && group_no(d, pos, n - 1)
            == t.spec_group() && body_has(d, body_pos(d, pos, n - 1), w, t.spec_group(), t.spec_page(), t.spec_bit())),
{
}

pub proof fn lemma_group_no_mono(d: Seq<u8>, pos: int, w: Widths, n: int, i: int, j: int)
    requires
        groups_ok(d, pos, w, n),
        0 <= i < j < n,
    ensures
        group_no(d, pos, i) < group_no(d, pos, j),
    decreases j,
{
    assert(head_ok(d, pos, w, j));
    if i < j - 1 {
        lemma_group_no_mono(d, pos, w, n, i, j - 1);
    }
}

// ---------------------------------------------------------------------------
// Dictionary values: a 2-bit tag and a 62-bit payload
// ---------------------------------------------------------------------------

/// One past the largest payload.
pub open spec fn payload_limit() -> int {
    0x4000_0000_0000_0000
}

/// How many tids a dictionary value says its term has.
pub open spec fn term_count(value: u64, d: Seq<u8>) -> int {
    if value as int / payload_limit() == 2 {
        1
    } else {
        leb_val(d, value as int % payload_limit()) as int
    }
}

/// Where a term's body starts, after its count.
pub open spec fn term_pos(value: u64, d: Seq<u8>) -> int {
    gap_pos(d, value as int % payload_limit(), 1)
}

/// Whether the term with a dictionary value is in tuple `t`.
pub open spec fn term_has(value: u64, d: Seq<u8>, w: Widths, t: Tid) -> bool {
    let tag = value as int / payload_limit();
    let payload = value as int % payload_limit();
    if tag == 2 {
        t == tid_of_key(payload)
    } else if tag == 1 {
        sparse_has(d, term_pos(value, d), term_count(value, d), t)
    } else {
        groups_has(d, gap_pos(d, term_pos(value, d), 1), w, gap(d, term_pos(value, d), 0), t)
    }
}

/// The tuples of the term with a dictionary value.
pub open spec fn term_tids(value: u64, d: Seq<u8>, w: Widths) -> Set<Tid> {
    Set::new(|t: Tid| term_has(value, d, w, t))
}

/// A dictionary value names whole postings, of tuples that the directory
/// knows, as many as it says.
pub open spec fn term_ok(value: u64, d: Seq<u8>, w: Widths) -> bool {
    let tag = value as int / payload_limit();
    let payload = value as int % payload_limit();
    &&& tag == 0 || tag == 1 || tag == 2
    &&& tag == 2 ==> payload < key_limit()
    &&& tag != 2 ==> num_ok(d, payload)
    &&& tag == 1 ==> sparse_ok(d, term_pos(value, d), term_count(value, d))
    &&& tag == 0 ==> {
        &&& num_ok(d, term_pos(value, d))
        &&& groups_ok(d, gap_pos(d, term_pos(value, d), 1), w, gap(d, term_pos(value, d), 0))
    }
    &&& forall|t: Tid| #[trigger] term_has(value, d, w, t) ==> w.holds(t)
    &&& term_tids(value, d, w).finite()
    &&& term_tids(value, d, w).len() == term_count(value, d)
}

/// A term's postings read the same when bytes are added behind them.
pub proof fn lemma_term_extend(value: u64, a: Seq<u8>, b: Seq<u8>, w: Widths)
    requires
        embeds(a, b, 0),
        term_ok(value, a, w),
    ensures
        term_ok(value, b, w),
        term_tids(value, b, w) == term_tids(value, a, w),
        term_count(value, b) == term_count(value, a),
{
    let tag = value as int / payload_limit();
    let payload = value as int % payload_limit();
    if tag != 2 {
        lemma_leb_embeds(a, b, 0, payload);
        assert(gap_pos(a, payload, 0) == payload);
        assert(gap_pos(b, payload, 0) == payload);
        let p = term_pos(value, a);
        if tag == 1 {
            let n = term_count(value, a);
            lemma_sparse_embed(a, b, 0, p, n);
            assert forall|t: Tid| sparse_has(b, p, n, t) == sparse_has(a, p, n, t) by {
                if sparse_has(a, p, n, t) {
                    let i = choose|i: int| 0 <= i < n && t == tid_of_key(#[trigger] sparse_key(a, p, n, i));
                    assert(sparse_key(b, 0 + p, n, i) == sparse_key(a, p, n, i));
                }
                if sparse_has(b, p, n, t) {
                    let i = choose|i: int| 0 <= i < n && t == tid_of_key(#[trigger] sparse_key(b, p, n, i));
                    assert(sparse_key(b, 0 + p, n, i) == sparse_key(a, p, n, i));
                }
            }
        } else {
            lemma_leb_embeds(a, b, 0, p);
            assert(gap_pos(a, p, 0) == p);
            assert(gap_pos(b, p, 0) == p);
            let q = gap_pos(a, p, 1);
            assert(gap_pos(b, p, 1) == q);
            let n = gap(a, p, 0);
            assert(gap(b, p, 0) == n);
            lemma_groups_embed(a, b, 0, q, w, n);
            assert forall|t: Tid| groups_has(b, q, w, n, t) == groups_has(a, q, w, n, t) by {
                assert(groups_has(b, 0 + q, w, n, t) == groups_has(a, q, w, n, t));
            }
        }
    }
    assert forall|t: Tid| term_has(value, b, w, t) == term_has(value, a, w, t) by {}
    assert(term_tids(value, b, w) =~= term_tids(value, a, w));
}

// ---------------------------------------------------------------------------
// Sizes
// ---------------------------------------------------------------------------

/// The pages of a group are listed or are bits, whichever takes fewer bytes:
/// a byte each, or 32 in all.
pub proof fn pages_take_the_fewer_bytes(d: Seq<u8>, at: int)
    ensures
        body_head(d, at) <= 33,
        body_head(d, at) <= d[at] + 2,
        body_head(d, at) == 33 || body_head(d, at) == d[at] + 2,
{
}

/// A key names its tuple.
pub proof fn keys_name_tuples(t: Tid)
    requires
        1 <= t.offset <= 512,
    ensures
        tid_of_key(t.spec_key()) == t,
{
}

/// Sparse keys come in blocks of 64, of which only the last can be shorter.
pub proof fn blocks_hold_all_keys(n: int, b: int)
    requires
        1 <= n,
        0 <= b < block_count(n),
    ensures
        (block_count(n) - 1) * 64 < n <= block_count(n) * 64,
        b + 1 < block_count(n) ==> keys_in_block(n, b) == 64,
        b + 1 == block_count(n) ==> keys_in_block(n, b) == n - 64 * b && 1 <= keys_in_block(n, b) <= 64,
{
}

} // verus!
