//! Postings: the on-disk encodings of one term's set of tids.
//!
//! Every term gets one of three encodings (the smallest, with a bias towards
//! bitmaps; see [`GROUPS_BIAS_NUM`]):
//!
//! * **Singleton** — a term in exactly one tuple stores its tid inline in the
//!   dictionary value. No postings bytes at all.
//! * **Sparse** — rare and mid-frequency terms: the tids as ascending
//!   [`Tid::key`]s, gap-coded with varints. Lists longer than
//!   [`SKIP_BLOCK`] are cut into blocks behind a skip table so AND can jump
//!   over them.
//! * **Groups** — the two-level bitmap. For each 256-page group that contains
//!   the term: a page set, then, for each of those pages, an offset bitmap
//!   exactly as wide as that page's line-pointer count. The widths come from
//!   the segment's shared [`PageDir`], so no per-page headers are stored.
//!
//! [`crate::wire`] gives the byte layout.

use vstd::prelude::*;
use crate::bitmap::{OffsetBits, PageBits};
use crate::combine::{fresh, Node};
use crate::cursor::Cursor;
use crate::leaf::{bits_countable, GroupsCursor, SingletonCursor, SparseCursor};
use crate::space::{PageDir, Widths};
use crate::stream::{BitWriter, put_word, stream_bit};
use crate::tid::Tid;
use crate::varint;
use crate::varint::{embeds, leb_bytes, leb_len, leb_val};
use crate::wire::{
    block_count, block_first, block_ok, body_has, body_head, body_ok, body_page, body_pages, gap, gap_key, gap_pos, gaps_ok,
    group_no, groups_has, groups_ok, head_ok, head_pos, keys_in_block, lemma_body_embed, lemma_gaps_embed, lemma_groups_embed,
    lemma_groups_has_step, lemma_page_offset_mono, lemma_skips_embed, lemma_sparse_embed, num_ok, page_offset, payload_limit,
    skip_first, skip_len, sparse_has, sparse_key, sparse_ok, term_count, term_has, term_ok, term_pos, term_tids, tid_of_key,
    PAGE_LIST_MAX, SKIP_BLOCK,
};
use crate::words::{ascending, ones_of, word_bit};

verus! {

/// For terms with more than [`SKIP_BLOCK`] postings the bitmap encoding is
/// chosen unless the sparse list is smaller than `groups_bytes * DEN / NUM`,
/// i.e. bitmaps may be up to NUM/DEN x larger.
pub const GROUPS_BIAS_NUM: usize = 3;

pub const GROUPS_BIAS_DEN: usize = 2;

/// Zero bytes that follow the last postings byte.
pub const TAIL_PADDING: usize = 16;

/// How a term is stored.
#[derive(Copy, Clone, Debug, PartialEq, Eq, PartialOrd, Ord, Hash, Structural)]
pub enum Encoding {
    Singleton,
    Sparse,
    Groups,
}

/// Tids whose keys ascend strictly.
pub open spec fn tids_ok(tids: Seq<Tid>) -> bool {
    &&& forall|i: int| 0 <= i < tids.len() ==> 1 <= (#[trigger] tids[i]).offset <= 512
    &&& forall|i: int, j: int| 0 <= i < j < tids.len() ==> (#[trigger] tids[i]).spec_key() < (#[trigger] tids[j]).spec_key()
}

/// The gaps from `first` on between the keys of `tids[lo..hi]`.
pub open spec fn gap_bytes(tids: Seq<Tid>, first: int, lo: int, hi: int) -> Seq<u8>
    decreases hi - lo,
{
    if hi <= lo {
        Seq::empty()
    } else {
        let prev = if hi - 1 == lo { first } else { tids[hi - 2].spec_key() };
        gap_bytes(tids, first, lo, hi - 1) + leb_bytes((tids[hi - 1].spec_key() - prev) as nat)
    }
}

/// The gaps of block `c`, behind its first key.
pub open spec fn block_bytes(tids: Seq<Tid>, c: int) -> Seq<u8> {
    let end = if 64 * (c + 1) < tids.len() { 64 * (c + 1) } else { tids.len() as int };
    gap_bytes(tids, tids[64 * c].spec_key(), 64 * c + 1, end)
}

/// The first `n` blocks.
pub open spec fn blocks_bytes(tids: Seq<Tid>, n: int) -> Seq<u8>
    decreases n,
{
    if n <= 0 {
        Seq::empty()
    } else {
        blocks_bytes(tids, n - 1) + block_bytes(tids, n - 1)
    }
}

/// The skip table of the first `n` blocks: each first key, as the gap from
/// the one before, and each block's length.
pub open spec fn skip_bytes(tids: Seq<Tid>, n: int) -> Seq<u8>
    decreases n,
{
    if n <= 0 {
        Seq::empty()
    } else {
        let prev = if n == 1 { 0 } else { tids[64 * (n - 2)].spec_key() };
        skip_bytes(tids, n - 1) + leb_bytes((tids[64 * (n - 1)].spec_key() - prev) as nat) + leb_bytes(block_bytes(tids, n - 1).len())
    }
}

/// The sparse body of `tids`.
pub open spec fn sparse_bytes(tids: Seq<Tid>) -> Seq<u8> {
    if tids.len() <= SKIP_BLOCK {
        leb_bytes(tids[0].spec_key() as nat) + gap_bytes(tids, tids[0].spec_key(), 1, tids.len() as int)
    } else {
        let n = block_count(tids.len() as int);
        skip_bytes(tids, n) + blocks_bytes(tids, n)
    }
}

/// Append the gaps between `prev` and the keys of `tids[lo..hi]`.
fn put_gaps(out: &mut Vec<u8>, tids: &[Tid], lo: usize, hi: usize, first: u64)
    requires
        tids_ok(tids@),
        lo <= hi <= tids@.len(),
        lo < hi ==> first <= tids@[lo as int].spec_key(),
    ensures
        embeds(old(out)@, final(out)@, 0),
        gaps_ok(final(out)@, old(out)@.len() as int, hi - lo),
        gap_pos(final(out)@, old(out)@.len() as int, hi - lo) == final(out)@.len(),
        forall|j: int| 0 < j <= hi - lo ==> #[trigger] gap_key(final(out)@, old(out)@.len() as int, first as int, j) == tids@[lo + j - 1].spec_key(),
        final(out)@.len() <= old(out)@.len() + 10 * (hi - lo),
        final(out)@ == old(out)@ + gap_bytes(tids@, first as int, lo as int, hi as int),
{
    let ghost base = out@.len() as int;
    proof {
        assert(out@ + Seq::<u8>::empty() =~= out@);
    }
    let mut i: usize = lo;
    let mut prev: u64 = first;
    while i < hi
        invariant
            tids_ok(tids@),
            base == old(out)@.len(),
            lo <= i <= hi <= tids@.len(),
            i < hi ==> prev <= tids@[i as int].spec_key(),
            prev == gap_key(out@, base, first as int, i - lo),
            prev == if i == lo { first as int } else { tids@[i - 1].spec_key() },
            out@ == old(out)@ + gap_bytes(tids@, first as int, lo as int, i as int),
            embeds(old(out)@, out@, 0),
            gaps_ok(out@, base, i - lo),
            gap_pos(out@, base, i - lo) == out@.len(),
            out@.len() <= base + 10 * (i - lo),
            forall|j: int| 0 < j <= i - lo ==> #[trigger] gap_key(out@, base, first as int, j) == tids@[lo + j - 1].spec_key(),
        decreases hi - i,
    {
        let k: u64 = tids[i].key();
        let ghost was = out@;
        varint::put(out, k - prev);
        proof {
            assert(out@ =~= old(out)@ + gap_bytes(tids@, first as int, lo as int, i + 1));
            lemma_gaps_embed(was, out@, 0, base, i - lo);
            assert(gap_pos(out@, 0 + base, i - lo) == was.len());
            assert forall|j: int| 0 <= j < i + 1 - lo implies num_ok(out@, #[trigger] gap_pos(out@, base, j)) by {
                if j < i - lo {
                    assert(num_ok(out@, gap_pos(out@, 0 + base, j)));
                }
            }
            assert(gap_key(out@, 0 + base, first as int, i - lo) == prev);
            assert(gap_key(out@, base, first as int, i + 1 - lo) == k);
            assert forall|j: int| 0 < j <= i + 1 - lo implies #[trigger] gap_key(out@, base, first as int, j) == tids@[lo + j - 1].spec_key() by {
                if j <= i - lo {
                    assert(gap_key(out@, 0 + base, first as int, j) == gap_key(was, base, first as int, j));
                }
            }
        }
        prev = k;
        i = i + 1;
    }
}

/// The sparse body of `tids`.
#[verifier::spinoff_prover]
#[verifier::rlimit(60)]
fn encode_sparse(tids: &[Tid]) -> (r: Vec<u8>)
    requires
        tids_ok(tids@),
        1 <= tids@.len(),
    ensures
        sparse_ok(r@, 0, tids@.len() as int),
        forall|i: int| 0 <= i < tids@.len() ==> #[trigger] sparse_key(r@, 0, tids@.len() as int, i) == tids@[i].spec_key(),
        r@.len() <= 11 * tids@.len() + 20,
        r@ == sparse_bytes(tids@),
{
    let n: usize = tids.len();
    let mut table: Vec<u8> = Vec::new();
    if n <= SKIP_BLOCK {
        let first: u64 = tids[0].key();
        varint::put(&mut table, first);
        let ghost head = table@;
        put_gaps(&mut table, tids, 1, n, first);
        proof {
            let d = table@;
            varint::lemma_leb_embeds(head, d, 0, 0);
            assert(gap_pos(d, 0, 0) == 0);
            assert(gap_pos(d, 0, 1) == head.len());
            assert(gaps_ok(d, 0, 1));
            assert(block_first(d, 0, n as int, 0) == first);
            assert(block_ok(d, 0, n as int, 0));
            assert forall|i: int| 0 <= i < n implies #[trigger] sparse_key(d, 0, n as int, i) == tids@[i].spec_key() by {
                assert(i / 64 == 0 && i % 64 == i);
                if i > 0 {
                    assert(gap_key(d, head.len() as int, first as int, i) == tids@[1 + i - 1].spec_key());
                }
            }
        }
        return table;
    }
    // Skip table first, block bodies after.
    let mut blocks: Vec<u8> = Vec::new();
    let ghost nn = n as int;
    let mut b: usize = 0;
    let mut lo: usize = 0;
    let mut prev_first: u64 = 0;
    while lo < n
        invariant
            tids_ok(tids@),
            table@ == skip_bytes(tids@, b as int),
            blocks@ == blocks_bytes(tids@, b as int),
            n == tids@.len(),
            nn == n,
            n > 64,
            lo == if 64 * b < n { 64 * b } else { nn },
            b <= block_count(nn),
            lo == n ==> b == block_count(nn),
            prev_first == if b == 0 { 0 } else { tids@[64 * (b - 1)].spec_key() },
            gaps_ok(table@, 0, 2 * b),
            gap_pos(table@, 0, 2 * b) == table@.len(),
            forall|c: int| 0 <= c < b ==> #[trigger] skip_first(table@, 0, c) == tids@[64 * c].spec_key(),
            skip_len(table@, 0, b as int) == blocks@.len(),
            table@.len() <= 20 * b,
            blocks@.len() <= 10 * lo,
            forall|c: int| 0 <= c < b ==> 0 <= #[trigger] skip_len(table@, 0, c) <= blocks@.len() && gaps_ok(blocks@, skip_len(table@, 0, c), keys_in_block(nn, c) - 1),
            forall|c: int, j: int| 0 <= c < b && 0 <= j < keys_in_block(nn, c) ==> #[trigger] gap_key(blocks@, skip_len(table@, 0, c), tids@[64 * c].spec_key(), j) == tids@[64 * c + j].spec_key(),
        decreases n - lo,
    {
        let hi: usize = if n - lo < SKIP_BLOCK { n } else { lo + SKIP_BLOCK };
        let first: u64 = tids[lo].key();
        let start: usize = blocks.len();
        let ghost k0 = blocks@;
        put_gaps(&mut blocks, tids, lo + 1, hi, first);
        let len: usize = blocks.len() - start;
        let ghost t0 = table@;
        proof {
            if b > 0 {
                assert(tids@[64 * (b - 1)].spec_key() < tids@[lo as int].spec_key());
            }
        }
        varint::put(&mut table, first - prev_first);
        let ghost t1 = table@;
        varint::put(&mut table, len as u64);
        proof {
            assert(blocks@ =~= k0 + block_bytes(tids@, b as int));
            assert(len == block_bytes(tids@, b as int).len());
            assert(table@ =~= skip_bytes(tids@, b + 1));
            let t2 = table@;
            let bb = b as int;
            lemma_gaps_embed(t0, t1, 0, 0, 2 * bb);
            lemma_gaps_embed(t0, t2, 0, 0, 2 * bb);
            lemma_skips_embed(t0, t2, 0, 0, bb);
            assert(gap_pos(t2, 0, 2 * bb) == t0.len());
            varint::lemma_leb_embeds(t1, t2, 0, t0.len() as int);
            assert(gap_pos(t2, 0, 2 * bb + 1) == t1.len());
            assert(gap_pos(t2, 0, 2 * bb + 2) == t2.len());
            assert forall|i: int| 0 <= i < 2 * (bb + 1) implies num_ok(t2, #[trigger] gap_pos(t2, 0, i)) by {
                if i < 2 * bb {
                    assert(num_ok(t2, gap_pos(t2, 0, i)));
                }
            }
            assert(gap(t2, 0, 2 * bb) == first - prev_first);
            assert(gap(t2, 0, 2 * bb + 1) == len);
            assert(skip_first(t2, 0, bb - 1) == skip_first(t0, 0, bb - 1));
            assert(skip_first(t0, 0, bb - 1) == prev_first) by {
                if bb == 0 {
                    assert(skip_first(t0, 0, -1) == 0);
                }
            }
            assert(skip_first(t2, 0, bb) == first);
            assert(skip_len(t2, 0, bb) == skip_len(t0, 0, bb));
            assert(skip_len(t2, 0, bb + 1) == blocks@.len());
            assert forall|c: int| 0 <= c < bb + 1 implies #[trigger] skip_first(t2, 0, c) == tids@[64 * c].spec_key() by {
                if c < bb {
                    assert(skip_first(t2, 0, c) == skip_first(t0, 0, c));
                }
            }
            assert forall|c: int| 0 <= c < bb + 1 implies 0 <= #[trigger] skip_len(t2, 0, c) <= blocks@.len() && gaps_ok(blocks@, skip_len(t2, 0, c), keys_in_block(nn, c) - 1) by {
                assert(skip_len(t2, 0, c) == skip_len(t0, 0, c));
                if c < bb {
                    lemma_gaps_embed(k0, blocks@, 0, skip_len(t0, 0, c), keys_in_block(nn, c) - 1);
                }
            }
            assert forall|c: int, j: int| 0 <= c < bb + 1 && 0 <= j < keys_in_block(nn, c) implies #[trigger] gap_key(blocks@, skip_len(t2, 0, c), tids@[64 * c].spec_key(), j) == tids@[64 * c + j].spec_key() by {
                assert(skip_len(t2, 0, c) == skip_len(t0, 0, c));
                if c < bb {
                    lemma_gaps_embed(k0, blocks@, 0, skip_len(t0, 0, c), keys_in_block(nn, c) - 1);
                    assert(gap_key(k0, skip_len(t0, 0, c), tids@[64 * c].spec_key(), j) == tids@[64 * c + j].spec_key());
                    assert(gap_key(blocks@, 0 + skip_len(t0, 0, c), tids@[64 * c].spec_key(), j) == gap_key(k0, skip_len(t0, 0, c), tids@[64 * c].spec_key(), j));
                } else if j > 0 {
                    assert(gap_key(blocks@, k0.len() as int, first as int, j) == tids@[lo + 1 + j - 1].spec_key());
                }
            }
        }
        prev_first = first;
        lo = hi;
        b = b + 1;
    }
    let ghost t = table@;
    let ghost k = blocks@;
    table.append(&mut blocks);
    proof {
        let d = table@;
        assert(d =~= t + k);
        let nb = block_count(nn);
        assert(b == nb);
        assert(embeds(t, d, 0));
        lemma_gaps_embed(t, d, 0, 0, 2 * nb);
        lemma_skips_embed(t, d, 0, 0, nb);
        assert(gap_pos(d, 0, 2 * nb) == t.len());
        assert forall|c: int| 0 <= c < nb implies #[trigger] block_ok(d, 0, nn, c) by {
            assert(skip_len(d, 0, c) == skip_len(t, 0, c));
            assert(embeds(k, d, t.len() as int));
            lemma_gaps_embed(k, d, t.len() as int, skip_len(t, 0, c), keys_in_block(nn, c) - 1);
        }
        assert forall|i: int| 0 <= i < nn implies #[trigger] sparse_key(d, 0, nn, i) == tids@[i].spec_key() by {
            let c = i / 64;
            let j = i % 64;
            assert(64 * c + j == i);
            assert(skip_len(d, 0, c) == skip_len(t, 0, c));
            assert(skip_first(d, 0, c) == skip_first(t, 0, c));
            assert(embeds(k, d, t.len() as int));
            lemma_gaps_embed(k, d, t.len() as int, skip_len(t, 0, c), keys_in_block(nn, c) - 1);
            assert(gap_key(k, skip_len(t, 0, c), tids@[64 * c].spec_key(), j) == tids@[64 * c + j].spec_key());
        }
    }
    table
}

/// A tid of `tids[lo..hi]`.
pub open spec fn among(tids: Seq<Tid>, lo: int, hi: int, t: Tid) -> bool {
    exists|i: int| lo <= i < hi && #[trigger] tids[i] == t
}

/// A page of `tids[lo..hi]`.
pub open spec fn page_among(tids: Seq<Tid>, lo: int, hi: int, p: int) -> bool {
    exists|i: int| lo <= i < hi && (#[trigger] tids[i]).spec_page() == p
}

/// A body starts with the pages' list or bitmap, whatever follows.
proof fn lemma_body_pages_prefix(head: Seq<u8>, d: Seq<u8>)
    requires
        embeds(head, d, 0),
        1 <= head.len(),
        body_head(head, 0) <= head.len(),
    ensures
        body_head(d, 0) == body_head(head, 0),
        forall|p: int| body_page(d, 0, p) == body_page(head, 0, p),
        body_pages(d, 0) == body_pages(head, 0),
{
    assert(head[0] == d[0 + 0int]);
    assert forall|p: int| body_page(d, 0, p) == body_page(head, 0, p) by {
        if head[0] + 1 <= 31 {
            if body_page(head, 0, p) {
                let k = choose|k: int| 0 <= k < head[0] + 1 && #[trigger] head[0 + 1 + k] == p;
                assert(head[1 + k] == d[0 + (1 + k)]);
                assert(d[0 + 1 + k] == p);
            }
            if body_page(d, 0, p) {
                let k = choose|k: int| 0 <= k < d[0] + 1 && #[trigger] d[0 + 1 + k] == p;
                assert(head[1 + k] == d[0 + (1 + k)]);
                assert(head[0 + 1 + k] == p);
            }
        } else if 0 <= p < 256 {
            crate::wire::lemma_stream_embed(head, d, 0, 8 + p);
        }
    }
    assert(body_pages(d, 0) =~= body_pages(head, 0));
}

/// The page count and the pages of a group body.
fn put_pages(pages: &PageBits) -> (r: Vec<u8>)
    requires
        exists|p: int| pages.has(p),
    ensures
        1 <= r@.len() <= 33,
        body_head(r@, 0) == r@.len(),
        forall|p: int| body_page(r@, 0, p) == pages.has(p),
        r@[0] + 1 == ones_of(pages.0@).len(),
        ones_of(pages.0@).len() <= PAGE_LIST_MAX ==> forall|k: int| 0 <= k < ones_of(pages.0@).len() ==> #[trigger] r@[1 + k] == ones_of(pages.0@)[k],
{
    let list: Vec<usize> = pages.ones();
    let n: usize = list.len();
    let ghost ps = ones_of(pages.0@);
    proof {
        crate::words::lemma_ones_below(pages.0@, 256);
        assert(forall|i: int| 0 <= i < n ==> #[trigger] ps[i] == list@[i]);
        assert forall|i: int| 0 <= i < n implies 0 <= #[trigger] ps[i] < 256 && pages.has(ps[i]) by {
            assert(ps.contains(ps[i]));
        }
        assert forall|i: int| 0 <= i < n implies 0 <= #[trigger] list@[i] < 256 by {
            assert(ps[i] == list@[i]);
        }
        let p = choose|p: int| pages.has(p);
        assert(ps.contains(p));
        lemma_short(ps, 256);
    }
    let mut body: Vec<u8> = Vec::new();
    body.push((n - 1) as u8);
    if n <= PAGE_LIST_MAX {
        let mut k: usize = 0;
        while k < n
            invariant
                k <= n <= 31,
                n == list@.len(),
                n >= 1,
                body@.len() == k + 1,
                body@[0] == n - 1,
                forall|i: int| 0 <= i < n ==> 0 <= #[trigger] list@[i] < 256,
                forall|i: int| 0 <= i < k ==> #[trigger] body@[0 + 1 + i] == list@[i],
            decreases n - k,
        {
            body.push(list[k] as u8);
            k = k + 1;
        }
        proof {
            assert forall|p: int| body_page(body@, 0, p) == pages.has(p) by {
                if pages.has(p) {
                    assert(ps.contains(p));
                    let i = ps.index_of(p);
                    assert(body@[0 + 1 + i] == list@[i]);
                    assert(list@[i] == ps[i]);
                }
                if body_page(body@, 0, p) {
                    let i = choose|i: int| 0 <= i < body@[0] + 1 && #[trigger] body@[0 + 1 + i] == p;
                    assert(list@[i] == ps[i]);
                }
            }
        }
    } else {
        let mut k: usize = 0;
        while k < 4
            invariant
                k <= 4,
                32 <= n <= 256,
                body@.len() == 1 + 8 * k,
                body@[0] == n - 1,
                forall|i: int| 0 <= i < 64 * k ==> #[trigger] stream_bit(body@, 8 + i) == pages.has(i),
            decreases 4 - k,
        {
            let ghost was = body@;
            put_word(&mut body, pages.0[k], 8);
            proof {
                assert forall|i: int| 0 <= i < 64 * (k + 1) implies #[trigger] stream_bit(body@, 8 + i) == pages.has(i) by {
                    if i < 64 * k {
                        assert(stream_bit(was, 8 + i) == pages.has(i));
                    } else {
                        assert(i / 64 == k && i % 64 == i - 64 * k);
                        assert(stream_bit(body@, 8 + i) == word_bit(pages.0@[k as int], (8 + i) - was.len() * 8));
                    }
                }
            }
            k = k + 1;
        }
        proof {
            assert forall|p: int| body_page(body@, 0, p) == pages.has(p) by {
                if 0 <= p < 256 {
                    assert(stream_bit(body@, 8 + p) == pages.has(p));
                }
            }
        }
    }
    body
}

/// Ascending numbers below `n` are at most `n` many.
proof fn lemma_short(s: Seq<int>, n: int)
    requires
        crate::words::ascending(s),
        forall|i: int| 0 <= i < s.len() ==> 0 <= #[trigger] s[i] < n,
        0 <= n,
    ensures
        s.len() <= n,
    decreases n,
{
    if s.len() > 0 {
        assert(s[s.len() - 1] < n);
        let t = s.drop_last();
        assert forall|i: int| 0 <= i < t.len() implies 0 <= #[trigger] t[i] < n - 1 by {
            assert(s[i] < s[s.len() - 1]);
        }
        lemma_short(t, n - 1);
    }
}

/// The pages of `tids[lo..hi]`, in order.
pub open spec fn are_pages(ps: Seq<int>, tids: Seq<Tid>, lo: int, hi: int) -> bool {
    &&& ascending(ps)
    &&& forall|p: int| #[trigger] ps.contains(p) <==> page_among(tids, lo, hi, p)
}

/// `b` starts with the number of pages, less one, and with the pages
/// themselves if they are few.
pub open spec fn lists_pages(b: Seq<u8>, ps: Seq<int>) -> bool {
    &&& b[0] + 1 == ps.len()
    &&& ps.len() <= PAGE_LIST_MAX ==> forall|k: int| 0 <= k < ps.len() ==> #[trigger] b[1 + k] == ps[k]
}

/// `b` is the body of group `g` with `tids[lo..hi]`, bit for bit: its pages,
/// then one bit for each of their line pointers, then zeros up to a byte.
pub open spec fn is_group_body(b: Seq<u8>, tids: Seq<Tid>, lo: int, hi: int, w: Widths, g: int) -> bool {
    let bits = body_head(b, 0) * 8 + page_offset(w, g, body_pages(b, 0), 256);
    &&& exists|ps: Seq<int>| #[trigger] are_pages(ps, tids, lo, hi) && lists_pages(b, ps)
    &&& forall|p: int| #[trigger] body_page(b, 0, p) <==> page_among(tids, lo, hi, p)
    &&& forall|p: int, x: int| 0 <= x ==> (#[trigger] body_has(b, 0, w, g, p, x) <==> 0 <= p < 256 && x < 512 && among(tids, lo, hi, Tid::at(g, p, x)))
    &&& b.len() == (bits + 7) / 8
    &&& forall|i: int| bits <= i < b.len() * 8 ==> !#[trigger] stream_bit(b, i)
}

/// `tids` cut into its groups: group `k` is `tids[cuts[k]..cuts[k + 1]]`, and
/// `bodies[k]` is its body.
pub open spec fn are_groups(bodies: Seq<Seq<u8>>, cuts: Seq<int>, tids: Seq<Tid>, w: Widths) -> bool {
    &&& cuts.len() == bodies.len() + 1
    &&& cuts[0] == 0
    &&& ascending(cuts)
    &&& forall|k: int| 0 <= k < cuts.len() ==> 0 <= #[trigger] cuts[k] <= tids.len()
    &&& forall|k: int| 0 <= k < bodies.len() ==> is_group_body(#[trigger] bodies[k], tids, cuts[k], cuts[k + 1], w, tids[cuts[k]].spec_group())
    &&& forall|k: int, i: int| 0 <= k < bodies.len() && cuts[k] <= i < cuts[k + 1] ==> (#[trigger] tids[i]).spec_group() == tids[#[trigger] cuts[k]].spec_group()
}

/// The first `n` groups: each number, as the gap from the one before, each
/// body's length, and the body.
pub open spec fn groups_bytes(bodies: Seq<Seq<u8>>, cuts: Seq<int>, tids: Seq<Tid>, n: int) -> Seq<u8>
    decreases n,
{
    if n <= 0 {
        Seq::empty()
    } else {
        let prev = if n == 1 { 0 } else { tids[cuts[n - 2]].spec_group() };
        groups_bytes(bodies, cuts, tids, n - 1) + leb_bytes((tids[cuts[n - 1]].spec_group() - prev) as nat) + leb_bytes(bodies[n - 1].len())
            + bodies[n - 1]
    }
}

/// `b` is the two-level bitmap of `tids`, byte for byte.
#[verifier::opaque]
pub open spec fn is_groups_bytes(b: Seq<u8>, tids: Seq<Tid>, w: Widths) -> bool {
    exists|bodies: Seq<Seq<u8>>, cuts: Seq<int>| #[trigger] are_groups(bodies, cuts, tids, w) && cuts.last() == tids.len() && b == leb_bytes(bodies.len())
        + groups_bytes(bodies, cuts, tids, bodies.len() as int)
}

proof fn lemma_groups_bytes_push(bodies: Seq<Seq<u8>>, cuts: Seq<int>, tids: Seq<Tid>, body: Seq<u8>, cut: int, n: int)
    requires
        0 <= n <= bodies.len(),
        cuts.len() == bodies.len() + 1,
    ensures
        groups_bytes(bodies.push(body), cuts.push(cut), tids, n) == groups_bytes(bodies, cuts, tids, n),
    decreases n,
{
    if n > 0 {
        lemma_groups_bytes_push(bodies, cuts, tids, body, cut, n - 1);
    }
}

/// One group more.
proof fn lemma_are_groups_push(bodies: Seq<Seq<u8>>, cuts: Seq<int>, tids: Seq<Tid>, w: Widths, body: Seq<u8>, lo: int, hi: int, g: int)
    requires
        are_groups(bodies, cuts, tids, w),
        cuts.last() == lo,
        lo < hi <= tids.len(),
        g == tids[lo].spec_group(),
        is_group_body(body, tids, lo, hi, w, g),
        forall|i: int| lo <= i < hi ==> (#[trigger] tids[i]).spec_group() == g,
    ensures
        are_groups(bodies.push(body), cuts.push(hi), tids, w),
{
    let (b2, c2) = (bodies.push(body), cuts.push(hi));
    let n = bodies.len() as int;
    assert(c2[n] == lo && c2[n + 1] == hi);
    assert(ascending(c2)) by {
        assert forall|i: int, j: int| 0 <= i < j < c2.len() implies c2[i] < c2[j] by {
            if j == n + 1 && i < n {
                assert(cuts[i] < cuts[n]);
            }
        }
    }
    assert forall|k: int| 0 <= k < b2.len() implies is_group_body(#[trigger] b2[k], tids, c2[k], c2[k + 1], w, tids[c2[k]].spec_group()) by {
        if k < n {
            assert(b2[k] == bodies[k]);
        }
    }
    assert forall|k: int, i: int| 0 <= k < b2.len() && c2[k] <= i < c2[k + 1] implies (#[trigger] tids[i]).spec_group() == tids[#[trigger] c2[k]].spec_group() by {
        if k < n {
            assert(cuts[k] <= i < cuts[k + 1]);
        }
    }
}

/// The body of one group: `tids[lo..hi]`, all in group `g`.
fn encode_group_body(tids: &[Tid], lo: usize, hi: usize, dir: PageDir<'_>, g: u32) -> (r: Vec<u8>)
    requires
        tids_ok(tids@),
        lo < hi <= tids@.len(),
        g < 0x100_0000,
        forall|i: int| lo <= i < hi ==> (#[trigger] tids@[i]).spec_group() == g && dir@.holds(tids@[i]),
        forall|b: int| #[trigger] dir@.width(b) <= 512,
    ensures
        body_ok(r@, 0, r@.len() as int, dir@, g as int),
        is_group_body(r@, tids@, lo as int, hi as int, dir@, g as int),
        forall|p: int, b: int| 0 <= b ==> (#[trigger] body_has(r@, 0, dir@, g as int, p, b) <==> 0 <= p < 256 && b < 512 && among(tids@, lo as int, hi as int, Tid::at(g as int, p, b))),
{
    let ghost w = dir@;
    let mut pages: PageBits = PageBits::zero();
    let mut i: usize = lo;
    while i < hi
        invariant
            lo <= i <= hi <= tids@.len(),
            forall|p: int| #[trigger] pages.has(p) <==> page_among(tids@, lo as int, i as int, p),
        decreases hi - i,
    {
        let ghost was = pages;
        pages.set(tids[i].page_in_group() as usize);
        proof {
            assert forall|p: int| #[trigger] pages.has(p) <==> page_among(tids@, lo as int, i + 1, p) by {
                assert(was.has(p) <==> page_among(tids@, lo as int, i as int, p));
                assert(tids@[i as int].spec_page() == tids@[i as int].spec_page());
            }
        }
        i = i + 1;
    }
    proof {
        assert(page_among(tids@, lo as int, hi as int, tids@[lo as int].spec_page()));
        assert(pages.has(tids@[lo as int].spec_page()));
    }
    let body: Vec<u8> = put_pages(&pages);
    let ghost head = body@;
    let ghost base = head.len() * 8;
    let ghost set = body_pages(head, 0);
    let mut bw: BitWriter = BitWriter::new(body);
    let mut p: u32 = 0;
    i = lo;
    while p < 256
        invariant
            p <= 256,
            tids_ok(tids@),
            w == dir@,
            lo <= i <= hi <= tids@.len(),
            g < 0x100_0000,
            forall|i: int| lo <= i < hi ==> (#[trigger] tids@[i]).spec_group() == g && w.holds(tids@[i]),
            forall|b: int| #[trigger] w.width(b) <= 512,
            forall|p: int| #[trigger] pages.has(p) <==> page_among(tids@, lo as int, hi as int, p),
            forall|p: int| set.contains(p) == pages.has(p),
            bw.wf(),
            bw.starts_with(head),
            base == head.len() * 8,
            bw.len() == base + page_offset(w, g as int, set, p as int),
            forall|k: int| lo <= k < i ==> (#[trigger] tids@[k]).spec_page() < p,
            forall|k: int| i <= k < hi ==> (#[trigger] tids@[k]).spec_page() >= p,
            forall|q: int, b: int| 0 <= q < p && set.contains(q) && 0 <= b < w.width(g * 256 + q) ==> (#[trigger] bw.at(base + page_offset(w, g as int, set, q) + b) <==> among(tids@, lo as int, hi as int, Tid::at(g as int, q, b))),
        decreases 256 - p,
    {
        if pages.get(p as usize) {
            let width: usize = dir.width(g * 256 + p);
            let ghost pp = p as int;
            let ghost gg = g as int;
            let mut bits: OffsetBits = OffsetBits::zero();
            let ghost from = i;
            while i < hi && tids[i].page_in_group() as u32 == p
                invariant
                    tids_ok(tids@),
                    lo <= from <= i <= hi <= tids@.len(),
                    p == pp,
                    p < 256,
                    g < 0x100_0000,
                    gg == g,
                    width == w.width(gg * 256 + pp),
                    width <= 512,
                    forall|i: int| lo <= i < hi ==> (#[trigger] tids@[i]).spec_group() == g && w.holds(tids@[i]),
                    forall|k: int| from <= k < i ==> (#[trigger] tids@[k]).spec_page() == p,
                    forall|k: int| from <= k < hi ==> (#[trigger] tids@[k]).spec_page() >= p,
                    forall|b: int| #[trigger] bits.has(b) ==> 0 <= b < width && among(tids@, lo as int, hi as int, Tid::at(gg, pp, b)),
                    forall|k: int| from <= k < i ==> bits.has((#[trigger] tids@[k]).spec_bit()),
                decreases hi - i,
            {
                let t: Tid = tids[i];
                proof {
                    assert(t.block == gg * 256 + pp);
                    assert(t == Tid::at(gg, pp, t.spec_bit()));
                    assert(tids@[i as int] == t);
                }
                bits.set(t.offset_bit() as usize);
                i = i + 1;
            }
            proof {
                assert forall|k: int| i <= k < hi implies (#[trigger] tids@[k]).spec_page() >= p + 1 by {
                    if k > i {
                        assert(tids@[i as int].spec_key() < tids@[k].spec_key());
                    }
                }
                assert forall|b: int| 0 <= b < width implies (#[trigger] bits.has(b) <==> among(tids@, lo as int, hi as int, Tid::at(gg, pp, b))) by {
                    if among(tids@, lo as int, hi as int, Tid::at(gg, pp, b)) {
                        let k = choose|k: int| lo <= k < hi && #[trigger] tids@[k] == Tid::at(gg, pp, b);
                        crate::space::lemma_at(gg, pp, b);
                        assert(tids@[k].spec_page() == pp);
                    }
                }
            }
            let ghost before = bw;
            let ghost at0 = bw.len();
            proof {
                lemma_page_offset_mono(w, gg, set, 0, pp);
            }
            let mut k: usize = 0;
            let mut left: usize = width;
            while k < 8 && left > 0
                invariant
                    k <= 8,
                    width <= 512,
                    left == (if 64 * k < width { width - 64 * k } else { 0 }),
                    bw.wf(),
                    at0 == before.len(),
                    at0 >= 0,
                    bw.len() == at0 + (width - left),
                    forall|s: Seq<u8>| before.starts_with(s) ==> bw.starts_with(s),
                    forall|x: int| 0 <= x < at0 ==> bw.at(x) == before.at(x),
                    forall|b: int| 0 <= b < width - left ==> #[trigger] bw.at(at0 + b) == bits.has(b),
                decreases 8 - k,
            {
                let n: usize = if left < 64 { left } else { 64 };
                let ghost was = bw;
                bw.write(bits.0[k], n as u32);
                proof {
                    assert forall|b: int| 0 <= b < width - (left - n) implies #[trigger] bw.at(at0 + b) == bits.has(b) by {
                        if b < width - left {
                            assert(was.at(at0 + b) == bits.has(b));
                        } else {
                            let j = b - (width - left);
                            assert(bw.at(was.len() + j) == word_bit(bits.0@[k as int], j));
                            assert(was.len() + j == at0 + b);
                            assert(b / 64 == k && b % 64 == j);
                        }
                    }
                }
                left = left - n;
                k = k + 1;
            }
            proof {
                assert forall|q: int, b: int| 0 <= q < p + 1 && set.contains(q) && 0 <= b < w.width(g * 256 + q) implies (#[trigger] bw.at(base + page_offset(w, g as int, set, q) + b) <==> among(tids@, lo as int, hi as int, Tid::at(g as int, q, b))) by {
                    if q < p {
                        lemma_page_offset_mono(w, gg, set, 0, q);
                        lemma_page_offset_mono(w, gg, set, q + 1, pp);
                        assert(before.at(base + page_offset(w, g as int, set, q) + b) <==> among(tids@, lo as int, hi as int, Tid::at(g as int, q, b)));
                    } else {
                        assert(bw.at(at0 + b) == bits.has(b));
                    }
                }
            }
        } else {
            proof {
                assert forall|k: int| i <= k < hi implies (#[trigger] tids@[k]).spec_page() >= p + 1 by {
                    if tids@[k].spec_page() == p {
                        assert(page_among(tids@, lo as int, hi as int, p as int));
                    }
                }
            }
        }
        p = p + 1;
    }
    let ghost done = bw;
    let r: Vec<u8> = bw.finish();
    proof {
        let d = r@;
        let gg = g as int;
        assert(embeds(head, d, 0));
        lemma_body_pages_prefix(head, d);
        lemma_page_offset_mono(w, gg, set, 0, 256);
        assert(body_pages(d, 0) == set);
        assert forall|p: int, b: int| 0 <= b implies (#[trigger] body_has(d, 0, w, gg, p, b) <==> 0 <= p < 256 && b < 512 && among(tids@, lo as int, hi as int, Tid::at(gg, p, b))) by {
            assert(body_page(d, 0, p) == pages.has(p));
            assert(set.contains(p) == pages.has(p));
            if pages.has(p) && b < w.width(gg * 256 + p) {
                crate::wire::lemma_page_offset_fits(w, gg, set, p);
                let x = base + page_offset(w, gg, set, p) + b;
                assert(done.at(x) <==> among(tids@, lo as int, hi as int, Tid::at(gg, p, b)));
                assert(stream_bit(d, x) == done.at(x));
            }
            if 0 <= p < 256 && b < 512 && among(tids@, lo as int, hi as int, Tid::at(gg, p, b)) {
                crate::space::lemma_at(gg, p, b);
                let k = choose|k: int| lo <= k < hi && #[trigger] tids@[k] == Tid::at(gg, p, b);
                assert(tids@[k].spec_page() == p);
                assert(page_among(tids@, lo as int, hi as int, p));
                assert(w.holds(tids@[k]));
            }
        }
        let ps = ones_of(pages.0@);
        crate::words::lemma_ones_below(pages.0@, 256);
        assert(are_pages(ps, tids@, lo as int, hi as int)) by {
            assert forall|p: int| #[trigger] ps.contains(p) <==> page_among(tids@, lo as int, hi as int, p) by {
                assert(pages.has(p) <==> page_among(tids@, lo as int, hi as int, p));
            }
        }
        assert(body_head(d, 0) == head.len());
        let bits = body_head(d, 0) * 8 + page_offset(w, gg, body_pages(d, 0), 256);
        assert(done.len() == bits);
        assert(d.len() == (bits + 7) / 8);
        assert forall|i: int| bits <= i < d.len() * 8 implies !#[trigger] stream_bit(d, i) by {
            assert(stream_bit(d, i) == (i < done.len() && done.at(i)));
        }
        assert forall|p: int| #[trigger] body_page(d, 0, p) <==> page_among(tids@, lo as int, hi as int, p) by {
            assert(set.contains(p) == pages.has(p));
            assert(body_pages(d, 0).contains(p) == body_page(d, 0, p));
            assert(pages.has(p) <==> page_among(tids@, lo as int, hi as int, p));
        }
        assert(lists_pages(d, ps)) by {
            assert(d[0] == head[0]);
            if ps.len() <= PAGE_LIST_MAX {
                assert forall|k: int| 0 <= k < ps.len() implies #[trigger] d[1 + k] == ps[k] by {
                    assert(d[1 + k] == head[1 + k]);
                }
            }
        }
    }
    r
}

/// Adding a group's header and body to `c` groups makes `c + 1` groups.
proof fn lemma_add_group(o0: Seq<u8>, o1: Seq<u8>, o2: Seq<u8>, d: Seq<u8>, body: Seq<u8>, w: Widths, c: int, prev: int, g: int)
    requires
        groups_ok(o0, 0, w, c),
        head_pos(o0, 0, c) == o0.len(),
        group_no(o0, 0, c - 1) == prev,
        c > 0 ==> prev < g,
        0 <= prev <= g < 0x100_0000,
        num_ok(o1, o0.len() as int),
        leb_val(o1, o0.len() as int) == g - prev,
        o0.len() + leb_len(o1, o0.len() as int) == o1.len(),
        num_ok(o2, o1.len() as int),
        leb_val(o2, o1.len() as int) == body.len(),
        o1.len() + leb_len(o2, o1.len() as int) == o2.len(),
        embeds(o0, o1, 0),
        embeds(o1, o2, 0),
        d == o2 + body,
        body_ok(body, 0, body.len() as int, w, g),
    ensures
        groups_ok(d, 0, w, c + 1),
        head_pos(d, 0, c + 1) == d.len(),
        group_no(d, 0, c) == g,
        forall|t: Tid| #[trigger] groups_has(d, 0, w, c + 1, t) <==> groups_has(o0, 0, w, c, t) || (t.offset >= 1 && t.spec_group() == g
            && body_has(body, 0, w, g, t.spec_page(), t.spec_bit())),
{
    assert forall|i: int| 0 <= i < o0.len() implies #[trigger] o0[i] == d[0 + i] by {
        assert(o0[i] == o1[0 + i]);
        assert(o1[i] == o2[0 + i]);
    }
    assert(embeds(o0, d, 0));
    assert forall|i: int| 0 <= i < o1.len() implies #[trigger] o1[i] == d[0 + i] by {
        assert(o1[i] == o2[0 + i]);
    }
    assert(embeds(o1, d, 0));
    assert(embeds(o2, d, 0));
    assert(embeds(body, d, o2.len() as int));
    lemma_groups_embed(o0, d, 0, 0, w, c);
    let h = o0.len() as int;
    assert(head_pos(d, 0, c) == h);
    varint::lemma_leb_embeds(o1, d, 0, h);
    varint::lemma_leb_embeds(o2, d, 0, o1.len() as int);
    assert(gap_pos(d, h, 0) == h);
    assert(gap_pos(d, h, 1) == o1.len());
    assert(gap_pos(d, h, 2) == o2.len());
    assert(gaps_ok(d, h, 2));
    assert(gap(d, h, 0) == g - prev);
    assert(gap(d, h, 1) == body.len());
    assert(group_no(d, 0, c - 1) == prev);
    assert(group_no(d, 0, c) == g);
    lemma_body_embed(body, d, o2.len() as int, 0, body.len() as int, w, g);
    assert(head_ok(d, 0, w, c));
    assert forall|i: int| 0 <= i < c + 1 implies #[trigger] head_ok(d, 0, w, i) by {}
    assert(head_pos(d, 0, c + 1) == d.len());
    assert forall|t: Tid| #[trigger] groups_has(d, 0, w, c + 1, t) <==> groups_has(o0, 0, w, c, t) || (t.offset >= 1 && t.spec_group() == g
        && body_has(body, 0, w, g, t.spec_page(), t.spec_bit())) by {
        lemma_groups_has_step(d, 0, w, c + 1, t);
        assert(groups_has(d, 0, w, c, t) == groups_has(o0, 0, w, c, t));
        assert(body_has(d, o2.len() as int + 0, w, g, t.spec_page(), t.spec_bit()) == body_has(body, 0, w, g, t.spec_page(), t.spec_bit()));
    }
}

/// The groups body of `tids`.
fn encode_groups(tids: &[Tid], dir: PageDir<'_>) -> (r: Vec<u8>)
    requires
        tids_ok(tids@),
        forall|i: int| 0 <= i < tids@.len() ==> dir@.holds(#[trigger] tids@[i]),
        forall|b: int| #[trigger] dir@.width(b) <= 512,
    ensures
        num_ok(r@, 0),
        groups_ok(r@, gap_pos(r@, 0, 1), dir@, gap(r@, 0, 0)),
        forall|t: Tid| #[trigger] groups_has(r@, gap_pos(r@, 0, 1), dir@, gap(r@, 0, 0), t) <==> among(tids@, 0, tids@.len() as int, t),
        is_groups_bytes(r@, tids@, dir@),
{
    let ghost w = dir@;
    let ghost mut bodies: Seq<Seq<u8>> = Seq::empty();
    let ghost mut cuts: Seq<int> = seq![0int];
    let n: usize = tids.len();
    let mut out: Vec<u8> = Vec::new();
    let mut count: usize = 0;
    let mut prev: u32 = 0;
    let mut lo: usize = 0;
    while lo < n
        invariant
            tids_ok(tids@),
            w == dir@,
            n == tids@.len(),
            lo <= n,
            count <= lo,
            forall|i: int| 0 <= i < tids@.len() ==> w.holds(#[trigger] tids@[i]),
            forall|b: int| #[trigger] w.width(b) <= 512,
            groups_ok(out@, 0, w, count as int),
            head_pos(out@, 0, count as int) == out@.len(),
            prev == group_no(out@, 0, count - 1),
            count > 0 ==> lo > 0 && prev == tids@[lo - 1].spec_group(),
            0 < lo < n ==> tids@[lo - 1].spec_group() != tids@[lo as int].spec_group(),
            count == 0 ==> lo == 0,
            bodies.len() == count,
            are_groups(bodies, cuts, tids@, w),
            cuts.last() == lo,
            prev == (if count == 0 { 0 } else { tids@[cuts[count - 1]].spec_group() }),
            out@ == groups_bytes(bodies, cuts, tids@, count as int),
            forall|t: Tid| #[trigger] groups_has(out@, 0, w, count as int, t) <==> among(tids@, 0, lo as int, t),
        decreases n - lo,
    {
        let g: u32 = tids[lo].group();
        let mut hi: usize = lo + 1;
        while hi < n && tids[hi].group() == g
            invariant
                tids_ok(tids@),
                lo < hi <= n,
                n == tids@.len(),
                forall|i: int| lo <= i < hi ==> (#[trigger] tids@[i]).spec_group() == g,
            decreases n - hi,
        {
            hi = hi + 1;
        }
        proof {
            if count > 0 {
                assert(tids@[lo - 1].spec_key() < tids@[lo as int].spec_key());
                assert(prev < g);
            }
        }
        let body: Vec<u8> = encode_group_body(tids, lo, hi, dir, g);
        let ghost o0 = out@;
        varint::put(&mut out, (g - prev) as u64);
        let ghost o1 = out@;
        let len: usize = body.len();
        varint::put(&mut out, len as u64);
        let ghost o2 = out@;
        out.extend_from_slice(body.as_slice());
        proof {
            let (d, c) = (out@, count as int);
            assert(d =~= o2 + body@);
            lemma_add_group(o0, o1, o2, d, body@, w, c, prev as int, g as int);
            lemma_are_groups_push(bodies, cuts, tids@, w, body@, lo as int, hi as int, g as int);
            lemma_groups_bytes_push(bodies, cuts, tids@, body@, hi as int, c);
            let (b2, c2) = (bodies.push(body@), cuts.push(hi as int));
            assert(c > 0 ==> c2[c - 1] == cuts[c - 1]);
            assert(c2[c] == lo);
            assert(d =~= groups_bytes(b2, c2, tids@, c + 1));
            bodies = b2;
            cuts = c2;
            assert forall|t: Tid| #[trigger] groups_has(d, 0, w, c + 1, t) <==> among(tids@, 0, hi as int, t) by {
                assert(groups_has(o0, 0, w, c, t) <==> among(tids@, 0, lo as int, t));
                let (p, b) = (t.spec_page(), t.spec_bit());
                if t.offset >= 1 && t.spec_group() == g {
                    assert(Tid::at(g as int, p, b) == t);
                    assert(body_has(body@, 0, w, g as int, p, b) <==> 0 <= p < 256 && b < 512 && among(tids@, lo as int, hi as int, t));
                }
                if among(tids@, 0, hi as int, t) {
                    let i = choose|i: int| 0 <= i < hi && #[trigger] tids@[i] == t;
                    if i >= lo {
                        assert(among(tids@, lo as int, hi as int, t));
                        assert(t.spec_group() == g);
                        assert(w.holds(t));
                        assert(w.width(t.block as int) <= 512);
                    } else {
                        assert(among(tids@, 0, lo as int, t));
                    }
                }
            }
        }
        prev = g;
        count = count + 1;
        lo = hi;
    }
    let mut r: Vec<u8> = Vec::new();
    varint::put(&mut r, count as u64);
    let ghost r0 = r@;
    let ghost o = out@;
    r.append(&mut out);
    proof {
        let d = r@;
        let c = count as int;
        assert(d =~= r0 + o);
        assert(r0 =~= leb_bytes(bodies.len()));
        reveal(is_groups_bytes);
        assert(is_groups_bytes(d, tids@, w));
        assert(embeds(r0, d, 0));
        varint::lemma_leb_embeds(r0, d, 0, 0);
        assert(gap_pos(d, 0, 0) == 0);
        assert(gap_pos(d, 0, 1) == r0.len());
        assert(gap(d, 0, 0) == c);
        assert(embeds(o, d, r0.len() as int));
        lemma_groups_embed(o, d, r0.len() as int, 0, w, c);
    }
    r
}

/// Encodes terms.
pub struct Encoder {
    sparse: Vec<u8>,
    groups: Vec<u8>,
}

/// Result of encoding one term.
pub struct Encoded {
    /// Value to store in the term dictionary.
    pub value: u64,
    pub encoding: Encoding,
    /// Bytes appended to the postings area (0 for singletons).
    pub bytes: usize,
}

/// `b` is a sparse list of `tids`.
pub open spec fn is_sparse_body(b: Seq<u8>, tids: Seq<Tid>) -> bool {
    &&& sparse_ok(b, 0, tids.len() as int)
    &&& forall|i: int| 0 <= i < tids.len() ==> #[trigger] sparse_key(b, 0, tids.len() as int, i) == tids[i].spec_key()
}

/// `b` is a two-level bitmap of `tids`.
pub open spec fn is_groups_body(b: Seq<u8>, tids: Seq<Tid>, w: Widths) -> bool {
    &&& num_ok(b, 0)
    &&& groups_ok(b, gap_pos(b, 0, 1), w, gap(b, 0, 0))
    &&& forall|t: Tid| #[trigger] groups_has(b, gap_pos(b, 0, 1), w, gap(b, 0, 0), t) <==> tids.contains(t)
}

/// Whether a sparse list of `s` bytes is taken over a bitmap of `g` bytes for
/// `n` tuples: short lists take the smaller, longer ones prefer the bitmap
/// even when it is up to half larger.
pub open spec fn takes_sparse(n: int, s: int, g: int) -> bool {
    if n > SKIP_BLOCK {
        s < g * GROUPS_BIAS_DEN / (GROUPS_BIAS_NUM as int)
    } else {
        s <= g
    }
}

/// What is written for several tuples, of the two bodies `s` and `g`: their
/// number, then the body that is taken.
pub open spec fn is_choice(s: Seq<u8>, g: Seq<u8>, tids: Seq<Tid>, w: Widths, e: Encoding, out: Seq<u8>) -> bool {
    &&& s == sparse_bytes(tids)
    &&& is_sparse_body(s, tids)
    &&& is_groups_bytes(g, tids, w)
    &&& is_groups_body(g, tids, w)
    &&& e == if takes_sparse(tids.len() as int, s.len() as int, g.len() as int) { Encoding::Sparse } else { Encoding::Groups }
    &&& out == leb_bytes(tids.len()) + (if e == Encoding::Sparse { s } else { g })
}

/// The tag of an encoding in a dictionary value.
pub open spec fn tag_of(e: Encoding) -> int {
    match e {
        Encoding::Groups => 0,
        Encoding::Sparse => 1,
        Encoding::Singleton => 2,
    }
}

impl Encoder {
    pub fn new() -> (r: Self) {
        Encoder { sparse: Vec::new(), groups: Vec::new() }
    }

    /// Append the postings for `tids` (strictly ascending, non-empty) to `out`.
    /// Every tid's offset must fit its page's width in `dir`.
    #[verifier::rlimit(40)]
    pub fn encode_term(&mut self, tids: &[Tid], dir: PageDir<'_>, out: &mut Vec<u8>) -> (r: Encoded)
        requires
            1 <= tids@.len(),
            tids_ok(tids@),
            forall|i: int| 0 <= i < tids@.len() ==> dir@.holds(#[trigger] tids@[i]),
            forall|b: int| #[trigger] dir@.width(b) <= 512,
            old(out)@.len() < payload_limit(),
        ensures
            embeds(old(out)@, final(out)@, 0),
            term_ok(r.value, final(out)@, dir@),
            term_tids(r.value, final(out)@, dir@) == tids@.to_set(),
            term_count(r.value, final(out)@) == tids@.len(),
            r.value as int / payload_limit() == tag_of(r.encoding),
            r.encoding == Encoding::Singleton <==> tids@.len() == 1,
            r.encoding != Encoding::Singleton ==> r.value as int % payload_limit() == old(out)@.len(),
            r.bytes == final(out)@.len() - old(out)@.len(),
            r.encoding == Encoding::Singleton ==> r.bytes == 0,
            r.encoding != Encoding::Singleton ==> exists|s: Seq<u8>, g: Seq<u8>| #[trigger] is_choice(
                s,
                g,
                tids@,
                dir@,
                r.encoding,
                final(out)@.skip(old(out)@.len() as int),
            ),
            r.bytes <= 17 * tids@.len() + 60,
    {
        let ghost w = dir@;
        let n: usize = tids.len();
        proof {
            assert forall|i: int, j: int| 0 <= i < tids@.len() && 0 <= j < tids@.len() && i != j implies tids@[i] != tids@[j] by {
                if i < j {
                    assert(tids@[i].spec_key() < tids@[j].spec_key());
                } else {
                    assert(tids@[j].spec_key() < tids@[i].spec_key());
                }
            }
            tids@.unique_seq_to_set();
            vstd::seq_lib::seq_to_set_is_finite(tids@);
        }
        if n == 1 {
            let k: u64 = tids[0].key();
            let value: u64 = 0x8000_0000_0000_0000 + k;
            proof {
                assert(tids@[0] == tid_of_key(k as int));
                assert(value as int / payload_limit() == 2);
                assert(value as int % payload_limit() == k);
                assert forall|t: Tid| term_has(value, out@, w, t) <==> tids@.to_set().contains(t) by {
                    if tids@.contains(t) {
                        let i = tids@.index_of(t);
                        assert(i == 0);
                    }
                }
                assert(term_tids(value, out@, w) =~= tids@.to_set());
                assert forall|t: Tid| #[trigger] term_has(value, out@, w, t) implies w.holds(t) by {
                    assert(tids@[0] == t);
                }
            }
            return Encoded { value, encoding: Encoding::Singleton, bytes: 0 };
        }
        self.sparse = encode_sparse(tids);
        self.groups = encode_groups(tids, dir);
        // Prefer the bitmap even when somewhat larger: AND/NOT prune whole
        // pages from it without decoding postings, while a sparse list must
        // be decoded posting by posting. Short lists gain nothing from
        // pruning, so they just take the smaller.
        let s: usize = self.sparse.len();
        let g: usize = self.groups.len();
        let take_sparse: bool = if n > SKIP_BLOCK {
            s < biased(g)
        } else {
            s <= g
        };
        let start: usize = out.len();
        let ghost o0 = out@;
        varint::put(out, n as u64);
        let ghost o1 = out@;
        let value: u64;
        let encoding: Encoding;
        if take_sparse {
            out.extend_from_slice(self.sparse.as_slice());
            value = 0x4000_0000_0000_0000 + start as u64;
            encoding = Encoding::Sparse;
        } else {
            out.extend_from_slice(self.groups.as_slice());
            value = start as u64;
            encoding = Encoding::Groups;
        }
        proof {
            if take_sparse {
                assert(out@ =~= o1 + self.sparse@);
                lemma_sparse_term(o0, o1, self.sparse@, out@, value, tids@, w);
            } else {
                assert(out@ =~= o1 + self.groups@);
                lemma_groups_term(o0, o1, self.groups@, out@, value, tids@, w);
            }
            let (s, g) = (self.sparse@, self.groups@);
            assert forall|t: Tid| #[trigger] groups_has(g, gap_pos(g, 0, 1), w, gap(g, 0, 0), t) <==> tids@.contains(t) by {
                assert(groups_has(g, gap_pos(g, 0, 1), w, gap(g, 0, 0), t) <==> among(tids@, 0, tids@.len() as int, t));
                if tids@.contains(t) {
                    assert(tids@[tids@.index_of(t)] == t);
                }
            }
            assert(out@.skip(o0.len() as int) =~= leb_bytes(tids@.len()) + (if take_sparse { s } else { g }));
            assert(is_choice(s, g, tids@, w, encoding, out@.skip(o0.len() as int)));
        }
        Encoded { value, encoding, bytes: out.len() - start }
    }
}

/// A count and a sparse body make a term.
#[verifier::rlimit(40)]
proof fn lemma_sparse_term(o0: Seq<u8>, o1: Seq<u8>, b: Seq<u8>, d: Seq<u8>, value: u64, tids: Seq<Tid>, w: Widths)
    requires
        tids_ok(tids),
        forall|i: int| 0 <= i < tids.len() ==> w.holds(#[trigger] tids[i]),
        tids.to_set().finite(),
        tids.to_set().len() == tids.len(),
        embeds(o0, o1, 0),
        num_ok(o1, o0.len() as int),
        leb_val(o1, o0.len() as int) == tids.len(),
        o0.len() + leb_len(o1, o0.len() as int) == o1.len(),
        d == o1 + b,
        value == payload_limit() + o0.len(),
        o0.len() < payload_limit(),
        sparse_ok(b, 0, tids.len() as int),
        forall|i: int| 0 <= i < tids.len() ==> #[trigger] sparse_key(b, 0, tids.len() as int, i) == tids[i].spec_key(),
    ensures
        embeds(o0, d, 0),
        term_ok(value, d, w),
        term_tids(value, d, w) == tids.to_set(),
        term_count(value, d) == tids.len(),
{
    let h = o0.len() as int;
    let n = tids.len() as int;
    assert(value as int % payload_limit() == h);
    assert(value as int / payload_limit() == 1);
    lemma_term_head(o0, o1, b, d);
    let p = o1.len() as int;
    lemma_sparse_embed(b, d, p, 0, n);
    assert forall|t: Tid| #[trigger] term_has(value, d, w, t) <==> tids.to_set().contains(t) by {
        if tids.contains(t) {
            let i = tids.index_of(t);
            assert(sparse_key(d, p + 0, n, i) == sparse_key(b, 0, n, i));
            assert(t == tid_of_key(t.spec_key()));
        }
        if sparse_has(d, p, n, t) {
            let i = choose|i: int| 0 <= i < n && t == tid_of_key(#[trigger] sparse_key(d, p, n, i));
            assert(sparse_key(d, p + 0, n, i) == sparse_key(b, 0, n, i));
            assert(tids[i] == tid_of_key(tids[i].spec_key()));
            assert(tids.contains(t));
        }
    }
    assert(term_tids(value, d, w) =~= tids.to_set());
    assert forall|t: Tid| #[trigger] term_has(value, d, w, t) implies w.holds(t) by {
        assert(tids.to_set().contains(t));
        let i = tids.index_of(t);
        assert(tids[i] == t);
    }
}

/// A count and a groups body make a term.
proof fn lemma_groups_term(o0: Seq<u8>, o1: Seq<u8>, b: Seq<u8>, d: Seq<u8>, value: u64, tids: Seq<Tid>, w: Widths)
    requires
        forall|i: int| 0 <= i < tids.len() ==> w.holds(#[trigger] tids[i]),
        tids.to_set().finite(),
        tids.to_set().len() == tids.len(),
        embeds(o0, o1, 0),
        num_ok(o1, o0.len() as int),
        leb_val(o1, o0.len() as int) == tids.len(),
        o0.len() + leb_len(o1, o0.len() as int) == o1.len(),
        d == o1 + b,
        value == o0.len(),
        o0.len() < payload_limit(),
        num_ok(b, 0),
        groups_ok(b, gap_pos(b, 0, 1), w, gap(b, 0, 0)),
        forall|t: Tid| #[trigger] groups_has(b, gap_pos(b, 0, 1), w, gap(b, 0, 0), t) <==> among(tids, 0, tids.len() as int, t),
    ensures
        embeds(o0, d, 0),
        term_ok(value, d, w),
        term_tids(value, d, w) == tids.to_set(),
        term_count(value, d) == tids.len(),
{
    let h = o0.len() as int;
    let n = tids.len() as int;
    assert(value as int % payload_limit() == h);
    assert(value as int / payload_limit() == 0);
    lemma_term_head(o0, o1, b, d);
    let p = o1.len() as int;
    varint::lemma_leb_embeds(b, d, p, 0);
    assert(gap_pos(b, 0, 0) == 0);
    assert(gap_pos(d, p, 0) == p);
    let q = gap_pos(b, 0, 1);
    let c = gap(b, 0, 0);
    assert(gap_pos(d, p, 1) == p + q);
    assert(gap(d, p, 0) == c);
    lemma_groups_embed(b, d, p, q, w, c);
    assert forall|t: Tid| #[trigger] term_has(value, d, w, t) <==> tids.to_set().contains(t) by {
        assert(groups_has(d, p + q, w, c, t) == groups_has(b, q, w, c, t));
        if tids.contains(t) {
            let i = tids.index_of(t);
            assert(tids[i] == t);
            assert(among(tids, 0, n, t));
        }
    }
    assert(term_tids(value, d, w) =~= tids.to_set());
    assert forall|t: Tid| #[trigger] term_has(value, d, w, t) implies w.holds(t) by {
        assert(tids.to_set().contains(t));
        let i = tids.index_of(t);
        assert(tids[i] == t);
    }
}

/// The count that was put in front of a body reads back.
proof fn lemma_term_head(o0: Seq<u8>, o1: Seq<u8>, b: Seq<u8>, d: Seq<u8>)
    requires
        embeds(o0, o1, 0),
        num_ok(o1, o0.len() as int),
        o0.len() + leb_len(o1, o0.len() as int) == o1.len(),
        d == o1 + b,
    ensures
        embeds(o0, d, 0),
        embeds(o1, d, 0),
        embeds(b, d, o1.len() as int),
        num_ok(d, o0.len() as int),
        leb_val(d, o0.len() as int) == leb_val(o1, o0.len() as int),
        gap_pos(d, o0.len() as int, 1) == o1.len(),
{
    assert(embeds(o1, d, 0));
    assert forall|i: int| 0 <= i < o0.len() implies #[trigger] o0[i] == d[0 + i] by {
        assert(o0[i] == o1[0 + i]);
    }
    varint::lemma_leb_embeds(o1, d, 0, o0.len() as int);
    assert(gap_pos(d, o0.len() as int, 0) == o0.len());
}

/// `n * GROUPS_BIAS_DEN / GROUPS_BIAS_NUM`.
fn biased(n: usize) -> (r: usize)
    ensures
        r == n * 2 / 3,
{
    n / 3 * GROUPS_BIAS_DEN + n % 3 * GROUPS_BIAS_DEN / GROUPS_BIAS_NUM
}

/// A decoded dictionary value: where one term's postings live.
#[derive(Copy, Clone, Debug)]
pub enum TermPostings<'a> {
    Singleton(Tid),
    Sparse { doc_count: u64, data: &'a [u8], pos: usize },
    Groups { doc_count: u64, data: &'a [u8], pos: usize },
}

impl<'a> TermPostings<'a> {
    /// These are the postings that a dictionary value names.
    pub open spec fn is(self, value: u64, d: Seq<u8>) -> bool {
        match self {
            TermPostings::Singleton(t) => {
                &&& value as int / payload_limit() == 2
                &&& t == tid_of_key(value as int % payload_limit())
            },
            TermPostings::Sparse { doc_count, data, pos } => {
                &&& value as int / payload_limit() == 1
                &&& doc_count == term_count(value, d)
                &&& data@ == d
                &&& pos == term_pos(value, d)
            },
            TermPostings::Groups { doc_count, data, pos } => {
                &&& value as int / payload_limit() == 0
                &&& doc_count == term_count(value, d)
                &&& data@ == d
                &&& pos == term_pos(value, d)
            },
        }
    }

    /// Interpret a dictionary value against the segment's postings area.
    pub fn from_value(value: u64, postings: &'a [u8]) -> (r: Self)
        requires
            exists|w: Widths| term_ok(value, postings@, w),
        ensures
            r.is(value, postings@),
    {
        let ghost w = choose|w: Widths| term_ok(value, postings@, w);
        let payload: u64 = value % 0x4000_0000_0000_0000;
        let tag: u64 = value / 0x4000_0000_0000_0000;
        if tag == 2 {
            return TermPostings::Singleton(Tid::from_key(payload));
        }
        proof {
            varint::lemma_leb_len_bound(postings@, payload as int);
            assert(gap_pos(postings@, payload as int, 0) == payload);
        }
        assert(payload < postings@.len());
        let len: usize = postings.len();
        let mut pos: usize = payload as usize;
        let doc_count: u64 = varint::get(postings, &mut pos);
        proof {
            assert(gap_pos(postings@, payload as int, 1) == pos);
        }
        if tag == 1 {
            TermPostings::Sparse { doc_count, data: postings, pos }
        } else {
            TermPostings::Groups { doc_count, data: postings, pos }
        }
    }

    /// The cursor over the postings, in a segment with the directory `dir`.
    pub fn cursor(&self, dir: PageDir<'_>) -> (r: Node<'a>)
        requires
            dir@.valid(),
            exists|value: u64, d: Seq<u8>| #[trigger] self.is(value, d) && term_ok(value, d, dir@) && bits_countable(d),
        ensures
            fresh(r, dir@),
            forall|value: u64, d: Seq<u8>| #[trigger] self.is(value, d) && term_ok(value, d, dir@) ==> r.model().tids == term_tids(value, d, dir@),
            r.model().cost == self.spec_doc_count(),
    {
        let ghost (value, d) = choose|value: u64, d: Seq<u8>| #[trigger] self.is(value, d) && term_ok(value, d, dir@) && bits_countable(d);
        let ghost w = dir@;
        let r: Node<'a> = match *self {
            TermPostings::Singleton(tid) => {
                proof {
                    assert(term_has(value, d, w, tid));
                }
                Node::Singleton(SingletonCursor::new(tid, Ghost(w)))
            },
            TermPostings::Sparse { doc_count, data, pos } => {
                proof {
                    assert forall|t: Tid| #[trigger] sparse_has(data@, pos as int, doc_count as int, t) implies w.holds(t) by {
                        assert(term_has(value, d, w, t));
                    }
                }
                Node::Sparse(SparseCursor::new(data, pos, doc_count, Ghost(w)))
            },
            TermPostings::Groups { doc_count, data, pos } => {
                Node::Groups(GroupsCursor::new(data, pos, doc_count, Ghost(w)))
            },
        };
        proof {
            crate::combine::lemma_node(r);
            assert forall|v: u64, e: Seq<u8>| #[trigger] self.is(v, e) && term_ok(v, e, w) implies r.model().tids == term_tids(v, e, w) by {
                assert(r.model().tids =~= term_tids(v, e, w));
            }
        }
        r
    }

    /// How many tuples the term is in.
    pub open spec fn spec_doc_count(self) -> u64 {
        match self {
            TermPostings::Singleton(_) => 1,
            TermPostings::Sparse { doc_count, .. } => doc_count,
            TermPostings::Groups { doc_count, .. } => doc_count,
        }
    }

    pub fn doc_count(&self) -> (r: u64)
        ensures
            r == self.spec_doc_count(),
    {
        match *self {
            TermPostings::Singleton(_) => 1,
            TermPostings::Sparse { doc_count, .. } => doc_count,
            TermPostings::Groups { doc_count, .. } => doc_count,
        }
    }

    pub fn encoding(&self) -> (r: Encoding)
        ensures
            r == match *self {
                TermPostings::Singleton(_) => Encoding::Singleton,
                TermPostings::Sparse { .. } => Encoding::Sparse,
                TermPostings::Groups { .. } => Encoding::Groups,
            },
    {
        match self {
            TermPostings::Singleton(_) => Encoding::Singleton,
            TermPostings::Sparse { .. } => Encoding::Sparse,
            TermPostings::Groups { .. } => Encoding::Groups,
        }
    }
}

} // verus!
