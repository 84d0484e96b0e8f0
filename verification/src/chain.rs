//! Page chains: how blobs and the pending stream lie on pages.
//!
//! Every page but the metapage belongs to a chain: `[next u32][flags u32]`,
//! then data, up to 8160 bytes a page. Chains let any freed page be reused
//! for anything. A freed page is stamped, so a stale free-space entry can
//! never hand out a page still in use.

use vstd::prelude::*;
use crate::le::{get_le, le_seq, le_val, lemma_le_at, lemma_le_limits, lemma_le_seq_len, put_le};
use crate::meta::INVALID_BLOCK;
use crate::pending::put_bytes;
use crate::varint::embeds;

verus! {

/// Chain page header: next block, flags.
pub const CHAIN_HEADER: usize = 8;

/// Data bytes a page.
pub const CHAIN_CAP: usize = 8160;

/// Flags word of a page that has been freed: `FREE`, lowest byte first.
pub const FREED: u32 = 0x4545_5246;

/// What the pages of a relation hold, by block.
pub type PagesView = Map<u32, Seq<u8>>;

/// The header of a chain page.
pub open spec fn header_bytes(next: u32, flags: u32) -> Seq<u8> {
    le_seq(next as nat, 4) + le_seq(flags as nat, 4)
}

/// The block after a page.
pub open spec fn next_of(page: Seq<u8>) -> u32 {
    le_val(page, 0, 4) as u32
}

/// The data of a page.
pub open spec fn data_of(page: Seq<u8>) -> Seq<u8> {
    if page.len() <= CHAIN_HEADER {
        Seq::empty()
    } else {
        page.skip(CHAIN_HEADER as int)
    }
}

/// The data of the `n`-page chain starting at `head`.
pub open spec fn chain_data(pages: PagesView, head: u32, n: int) -> Seq<u8>
    decreases n,
{
    if n <= 0 {
        Seq::empty()
    } else {
        data_of(pages[head]) + chain_data(pages, next_of(pages[head]), n - 1)
    }
}

/// How many pages hold `len` bytes.
pub open spec fn pages_for(len: int) -> int {
    (len + CHAIN_CAP - 1) / CHAIN_CAP as int
}

/// The part of `bytes` on page `i`.
pub open spec fn chunk(bytes: Seq<u8>, i: int) -> Seq<u8> {
    bytes.subrange(i * CHAIN_CAP, if (i + 1) * CHAIN_CAP < bytes.len() { (i + 1) * CHAIN_CAP } else { bytes.len() as int })
}

/// The block that page `i` links to.
pub open spec fn link(blocks: Seq<u32>, i: int) -> u32 {
    if i + 1 < blocks.len() {
        blocks[i + 1]
    } else {
        INVALID_BLOCK
    }
}

/// Page `i` of `bytes` on `blocks`.
pub open spec fn blob_page(bytes: Seq<u8>, blocks: Seq<u32>, i: int) -> Seq<u8> {
    header_bytes(link(blocks, i), 0) + chunk(bytes, i)
}

/// The pages of `blocks` hold `bytes`.
pub open spec fn holds_blob(pages: PagesView, bytes: Seq<u8>, blocks: Seq<u32>) -> bool {
    forall|i: int| 0 <= i < blocks.len() ==> pages[#[trigger] blocks[i]] == blob_page(bytes, blocks, i)
}

fn put_header(out: &mut Vec<u8>, next: u32, flags: u32)
    ensures
        final(out)@ == old(out)@ + header_bytes(next, flags),
{
    let ghost start = out@;
    put_le(out, next as u64, 4);
    put_le(out, flags as u64, 4);
    proof {
        assert(out@ =~= start + header_bytes(next, flags));
    }
}

/// A page that starts a chain: no next page, no data.
pub fn fresh_page() -> (r: Vec<u8>)
    ensures
        r@ == header_bytes(INVALID_BLOCK, 0),
{
    let mut out: Vec<u8> = Vec::new();
    put_header(&mut out, INVALID_BLOCK, 0);
    proof {
        assert(out@ =~= header_bytes(INVALID_BLOCK, 0));
    }
    out
}

/// A freed page.
pub fn freed_page() -> (r: Vec<u8>)
    ensures
        r@ == header_bytes(INVALID_BLOCK, FREED),
{
    let mut out: Vec<u8> = Vec::new();
    put_header(&mut out, INVALID_BLOCK, FREED);
    proof {
        assert(out@ =~= header_bytes(INVALID_BLOCK, FREED));
    }
    out
}

/// Whether a page was stamped as freed.
pub open spec fn stamped(page: Seq<u8>) -> bool {
    page.len() >= CHAIN_HEADER && le_val(page, 4, 4) == FREED
}

/// Whether a page that the free space map offers may be recycled: the map
/// can be stale after a crash, so only pages stamped as freed.
pub fn is_freed(page: &[u8]) -> (r: bool)
    ensures
        r == stamped(page@),
{
    page.len() >= CHAIN_HEADER && get_le(page, 4, 4) == FREED as u64
}

/// The block after a page.
pub fn next_block(page: &[u8]) -> (r: u32)
    requires
        page@.len() >= CHAIN_HEADER,
    ensures
        r == next_of(page@),
{
    proof {
        lemma_le_limits();
    }
    get_le(page, 0, 4) as u32
}

/// How many pages hold `len` bytes.
pub fn page_count(len: usize) -> (r: usize)
    ensures
        r == pages_for(len as int),
{
    let n: usize = len / CHAIN_CAP;
    if len % CHAIN_CAP == 0 {
        n
    } else {
        n + 1
    }
}

/// The pages of a new chain that holds `bytes` on `blocks`.
pub fn blob_pages(bytes: &[u8], blocks: &[u32]) -> (r: Vec<Vec<u8>>)
    requires
        blocks@.len() == pages_for(bytes@.len() as int),
    ensures
        r@.len() == blocks@.len(),
        forall|i: int| 0 <= i < r@.len() ==> (#[trigger] r@[i])@ == blob_page(bytes@, blocks@, i),
{
    let n: usize = blocks.len();
    let len: usize = bytes.len();
    let mut out: Vec<Vec<u8>> = Vec::new();
    let mut i: usize = 0;
    while i < n
        invariant
            i <= n == blocks@.len(),
            len == bytes@.len(),
            n == pages_for(len as int),
            out@.len() == i,
            forall|k: int| 0 <= k < i ==> (#[trigger] out@[k])@ == blob_page(bytes@, blocks@, k),
        decreases n - i,
    {
        let next: u32 = if i + 1 < n {
            blocks[i + 1]
        } else {
            INVALID_BLOCK
        };
        let mut page: Vec<u8> = Vec::new();
        put_header(&mut page, next, 0);
        let from: usize = i * CHAIN_CAP;
        let to: usize = if len - from > CHAIN_CAP {
            from + CHAIN_CAP
        } else {
            len
        };
        put_bytes(&mut page, vstd::slice::slice_subrange(bytes, from, to));
        proof {
            assert(page@ =~= blob_page(bytes@, blocks@, i as int));
        }
        out.push(page);
        i = i + 1;
    }
    out
}

/// Reads a chain of a known number of pages.
pub struct BlobReader {
    /// The page to read next.
    pub block: u32,
    /// Pages left to read.
    pub left: u32,
    pub out: Vec<u8>,
}

impl BlobReader {
    pub fn new(head: u32, n: u32) -> (r: Self)
        ensures
            r.block == head,
            r.left == n,
            r.out@.len() == 0,
            forall|pages: PagesView| #[trigger] r.reads(pages) == chain_data(pages, head, n as int),
    {
        let r: BlobReader = BlobReader { block: head, left: n, out: Vec::new() };
        proof {
            assert forall|pages: PagesView| #[trigger] r.reads(pages) == chain_data(pages, head, n as int) by {
                assert(r.reads(pages) =~= chain_data(pages, head, n as int));
            }
        }
        r
    }

    /// What it has read once it is done.
    pub open spec fn reads(&self, pages: PagesView) -> Seq<u8> {
        self.out@ + chain_data(pages, self.block, self.left as int)
    }

    /// Take the page `block`.
    pub fn take(&mut self, page: &[u8])
        requires
            old(self).left > 0,
            page@.len() >= CHAIN_HEADER,
        ensures
            final(self).left == old(self).left - 1,
            forall|pages: PagesView| pages[old(self).block] == page@ ==> #[trigger] final(self).reads(pages) == old(self).reads(pages),
    {
        let ghost was = *self;
        let len: usize = page.len();
        put_bytes(&mut self.out, vstd::slice::slice_subrange(page, CHAIN_HEADER, len));
        self.block = next_block(page);
        self.left = self.left - 1;
        proof {
            assert forall|pages: PagesView| pages[was.block] == page@ implies #[trigger] self.reads(pages) == was.reads(pages) by {
                assert(page@.subrange(8, len as int) =~= data_of(page@));
                assert(self.reads(pages) =~= was.reads(pages));
            }
        }
    }

    /// The data, if it is as long as it should be.
    pub fn finish(self, len: u64) -> (r: Result<Vec<u8>, u64>)
        requires
            self.left == 0,
        ensures
            match r {
                Ok(v) => v@ == self.out@ && v@.len() == len,
                Err(n) => n == self.out@.len() && n != len,
            },
            forall|pages: PagesView| r is Ok ==> r->Ok_0@ == #[trigger] self.reads(pages),
    {
        proof {
            assert forall|pages: PagesView| self.out@ == #[trigger] self.reads(pages) by {
                assert(self.reads(pages) =~= self.out@);
            }
        }
        if self.out.len() as u64 == len {
            Ok(self.out)
        } else {
            Err(self.out.len() as u64)
        }
    }
}

/// `words` as little-endian bytes.
pub fn words_to_bytes(words: &[u64]) -> (r: Vec<u8>)
    ensures
        r@ == words_bytes(words@),
{
    let mut out: Vec<u8> = Vec::new();
    let mut i: usize = 0;
    proof {
        assert(words@.take(0) =~= Seq::empty());
    }
    while i < words.len()
        invariant
            i <= words@.len(),
            out@ == words_bytes(words@.take(i as int)),
        decreases words@.len() - i,
    {
        put_le(&mut out, words[i], 8);
        proof {
            let next = words@.take(i + 1);
            assert(next.drop_last() =~= words@.take(i as int));
        }
        i = i + 1;
    }
    proof {
        assert(words@.take(i as int) =~= words@);
    }
    out
}

/// Words as little-endian bytes.
pub open spec fn words_bytes(words: Seq<u64>) -> Seq<u8>
    decreases words.len(),
{
    if words.len() == 0 {
        Seq::empty()
    } else {
        words_bytes(words.drop_last()) + le_seq(words.last() as nat, 8)
    }
}

/// The words of whole little-endian bytes.
pub fn bytes_to_words(b: &[u8]) -> (r: Vec<u64>)
    ensures
        r@.len() == b@.len() / 8,
        forall|i: int| 0 <= i < r@.len() ==> #[trigger] r@[i] == le_val(b@, i * 8, 8),
{
    let len: usize = b.len();
    let n: usize = len / 8;
    let mut out: Vec<u64> = Vec::new();
    let mut i: usize = 0;
    while i < n
        invariant
            len == b@.len(),
            i <= n == len / 8,
            out@.len() == i,
            forall|k: int| 0 <= k < i ==> #[trigger] out@[k] == le_val(b@, k * 8, 8),
        decreases n - i,
    {
        out.push(get_le(b, i * 8, 8));
        i = i + 1;
    }
    out
}

/// Words of liveness a page.
pub const WORDS_PER_PAGE: usize = 1020;

/// The words of `s` on page `i`.
pub open spec fn page_words(s: Seq<u64>, i: int) -> Seq<u64> {
    s.subrange(i * WORDS_PER_PAGE, if (i + 1) * WORDS_PER_PAGE < s.len() { (i + 1) * WORDS_PER_PAGE } else { s.len() as int })
}

/// For each page of a liveness chain, the data to write there if its words
/// changed.
pub fn liveness_writes(old_words: &[u64], new_words: &[u64]) -> (r: Vec<Option<Vec<u8>>>)
    requires
        old_words@.len() == new_words@.len(),
    ensures
        r@.len() == (old_words@.len() + WORDS_PER_PAGE - 1) / WORDS_PER_PAGE as int,
        forall|i: int| 0 <= i < r@.len() ==> match #[trigger] r@[i] {
            Some(b) => page_words(old_words@, i) != page_words(new_words@, i) && b@ == words_bytes(page_words(new_words@, i)),
            None => page_words(old_words@, i) == page_words(new_words@, i),
        },
{
    let len: usize = new_words.len();
    let mut out: Vec<Option<Vec<u8>>> = Vec::new();
    let mut from: usize = 0;
    let ghost mut i: int = 0;
    while from < len
        invariant
            len == old_words@.len() == new_words@.len(),
            0 <= i,
            from == if i * WORDS_PER_PAGE < len { i * WORDS_PER_PAGE } else { len as int },
            out@.len() == i,
            i * WORDS_PER_PAGE < len + WORDS_PER_PAGE,
            forall|k: int| 0 <= k < i ==> match #[trigger] out@[k] {
                Some(b) => page_words(old_words@, k) != page_words(new_words@, k) && b@ == words_bytes(page_words(new_words@, k)),
                None => page_words(old_words@, k) == page_words(new_words@, k),
            },
        decreases len - from,
    {
        let to: usize = if len - from > WORDS_PER_PAGE {
            from + WORDS_PER_PAGE
        } else {
            len
        };
        let o: &[u64] = vstd::slice::slice_subrange(old_words, from, to);
        let n: &[u64] = vstd::slice::slice_subrange(new_words, from, to);
        proof {
            assert(o@ == page_words(old_words@, i));
            assert(n@ == page_words(new_words@, i));
        }
        if same_words(o, n) {
            out.push(None);
        } else {
            out.push(Some(words_to_bytes(n)));
        }
        from = to;
        proof {
            i = i + 1;
        }
    }
    out
}

fn same_words(a: &[u64], b: &[u64]) -> (r: bool)
    requires
        a@.len() == b@.len(),
    ensures
        r == (a@ == b@),
{
    let mut i: usize = 0;
    while i < a.len()
        invariant
            i <= a@.len() == b@.len(),
            forall|k: int| 0 <= k < i ==> #[trigger] a@[k] == b@[k],
        decreases a@.len() - i,
    {
        if a[i] != b[i] {
            return false;
        }
        i = i + 1;
    }
    proof {
        assert(a@ =~= b@);
    }
    true
}

// ---------------------------------------------------------------------------
// Laws
// ---------------------------------------------------------------------------

pub proof fn lemma_header(next: u32, flags: u32, rest: Seq<u8>)
    ensures
        header_bytes(next, flags).len() == 8,
        next_of(header_bytes(next, flags) + rest) == next,
        le_val(header_bytes(next, flags) + rest, 4, 4) == flags,
        data_of(header_bytes(next, flags) + rest) == rest,
{
    let p = header_bytes(next, flags) + rest;
    lemma_le_seq_len(next as nat, 4);
    lemma_le_seq_len(flags as nat, 4);
    lemma_le_limits();
    assert(embeds(le_seq(next as nat, 4), p, 0));
    assert(embeds(le_seq(flags as nat, 4), p, 4)) by {
        assert forall|i: int| 0 <= i < 4 implies #[trigger] le_seq(flags as nat, 4)[i] == p[4 + i] by {
        }
    }
    lemma_le_at(p, 0, next as nat, 4);
    lemma_le_at(p, 4, flags as nat, 4);
    assert(data_of(p) =~= rest);
}

/// A page that was freed can be told from every page of a chain in use.
pub proof fn freed_pages_are_stamped(next: u32, data: Seq<u8>)
    ensures
        stamped(header_bytes(INVALID_BLOCK, FREED)),
        !stamped(header_bytes(next, 0) + data),
{
    lemma_header(INVALID_BLOCK, FREED, Seq::empty());
    assert(header_bytes(INVALID_BLOCK, FREED) + Seq::<u8>::empty() =~= header_bytes(INVALID_BLOCK, FREED));
    lemma_header(next, 0, data);
}

/// Reading the chain that a blob was written to gives the blob back.
pub proof fn blob_reads_back(pages: PagesView, bytes: Seq<u8>, blocks: Seq<u32>)
    requires
        blocks.len() == pages_for(bytes.len() as int),
        holds_blob(pages, bytes, blocks),
    ensures
        bytes.len() > 0 ==> chain_data(pages, blocks[0], blocks.len() as int) == bytes,
{
    if bytes.len() > 0 {
        lemma_blob_from(pages, bytes, blocks, 0);
        assert(bytes.skip(0) =~= bytes);
    }
}

proof fn lemma_blob_from(pages: PagesView, bytes: Seq<u8>, blocks: Seq<u32>, i: int)
    requires
        blocks.len() == pages_for(bytes.len() as int),
        holds_blob(pages, bytes, blocks),
        0 <= i < blocks.len(),
    ensures
        chain_data(pages, blocks[i], blocks.len() - i) == bytes.skip(i * CHAIN_CAP),
    decreases blocks.len() - i,
{
    let page = pages[blocks[i]];
    assert(page == blob_page(bytes, blocks, i));
    lemma_header(link(blocks, i), 0, chunk(bytes, i));
    if i + 1 < blocks.len() {
        lemma_blob_from(pages, bytes, blocks, i + 1);
        assert(chunk(bytes, i) + bytes.skip((i + 1) * CHAIN_CAP) =~= bytes.skip(i * CHAIN_CAP));
    } else {
        assert(chain_data(pages, next_of(page), 0) =~= Seq::empty());
        assert(chunk(bytes, i) + Seq::<u8>::empty() =~= bytes.skip(i * CHAIN_CAP));
    }
}

/// Words read back from their bytes.
pub proof fn words_read_back(words: Seq<u64>)
    ensures
        words_bytes(words).len() == words.len() * 8,
        forall|i: int| 0 <= i < words.len() ==> le_val(words_bytes(words), i * 8, 8) == #[trigger] words[i],
{
    lemma_words(words, words_bytes(words));
}

proof fn lemma_words(words: Seq<u64>, b: Seq<u8>)
    requires
        embeds(words_bytes(words), b, 0),
    ensures
        words_bytes(words).len() == words.len() * 8,
        forall|i: int| 0 <= i < words.len() ==> le_val(b, i * 8, 8) == #[trigger] words[i],
    decreases words.len(),
{
    if words.len() > 0 {
        let rest = words.drop_last();
        let w = words.last();
        lemma_le_seq_len(w as nat, 8);
        lemma_le_limits();
        crate::meta::lemma_embeds_parts(words_bytes(rest), le_seq(w as nat, 8), b, 0);
        lemma_words(rest, b);
        lemma_le_at(b, words_bytes(rest).len() as int, w as nat, 8);
        assert forall|i: int| 0 <= i < words.len() implies le_val(b, i * 8, 8) == #[trigger] words[i] by {
            if i < rest.len() {
                assert(rest[i] == words[i]);
            }
        }
    }
}

/// A blob takes as many pages of 8160 bytes as it needs, and no more.
pub proof fn blobs_take_the_fewest_pages(len: int)
    requires
        0 <= len,
    ensures
        pages_for(len) * 8160 >= len,
        (pages_for(len) - 1) * 8160 < len || len == 0 && pages_for(len) == 0,
{
}

} // verus!
