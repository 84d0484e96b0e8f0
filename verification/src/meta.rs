//! The metapage: block 0 of an index relation.
//!
//! ```text
//! magic u32  version u32  generation u64
//! next_segment_id u32  segments u32  pending_head u32  pending_tail u32
//! pending_tail_used u32  retired u32  pending_bytes u64  pending_count u64
//! (zero up to byte 64)
//! segments × [id u32  first_block u32  n_blocks u32  live_first u32
//!             live_blocks u32  0 u32  len u64]
//! retired × [head u32  pages u32]
//! ```

use vstd::prelude::*;
use crate::grammar::number_text;
use crate::le::{get_le, le_limit, le_seq, le_val, lemma_le_at, lemma_le_limits, lemma_le_seq_len, put_le};
use crate::lexer::{joined, text_of};
use crate::parser::number_string;
use crate::varint::embeds;

verus! {

/// `TIN1`, lowest byte first.
pub const META_MAGIC: u32 = 0x314E_4954;

pub const META_VERSION: u32 = 3;

/// What a page holds below its standard header.
pub const PAGE_PAYLOAD: usize = 8168;

pub const META_HEADER: usize = 64;

pub const META_ENTRY: usize = 32;

/// Segments that fit in the metapage's table.
pub const MAX_SEGMENTS: usize = 253;

/// No block.
pub const INVALID_BLOCK: u32 = 0xFFFF_FFFF;

/// Where one segment and its liveness bitmap live.
#[derive(Copy, Clone, Debug, PartialEq, Eq, Structural)]
pub struct SegmentRef {
    pub id: u32,
    pub first_block: u32,
    pub n_blocks: u32,
    pub len: u64,
    pub live_first: u32,
    pub live_blocks: u32,
}

/// Decoded metapage.
#[derive(Debug)]
pub struct Meta {
    /// Bumped by every change other than a plain pending append: flushes and
    /// VACUUM. Backends reload liveness and the pending list when it moves.
    pub generation: u64,
    pub next_segment_id: u32,
    pub pending_head: u32,
    pub pending_tail: u32,
    /// Stream bytes used in the tail page.
    pub pending_tail_used: u32,
    /// Total pending stream bytes; always on a record boundary.
    pub pending_bytes: u64,
    pub pending_count: u64,
    pub segments: Vec<SegmentRef>,
    /// Chains (head, pages) of merged-away segments and their liveness.
    /// Freed by the next VACUUM, so a concurrent VACUUM's lock-free pass
    /// never reads a recycled page.
    pub retired: Vec<(u32, u32)>,
}

/// Why a metapage cannot be read.
#[derive(Copy, Clone, Debug, PartialEq, Eq, Structural)]
pub enum MetaError {
    /// Not a metapage.
    Missing,
    /// Another on-disk format.
    Version(u32),
    /// Shorter than its tables.
    Truncated,
}

impl MetaError {
    /// What the error means.
    pub fn message(&self) -> (r: String)
        ensures
            self is Missing ==> r@ == "tin: index metapage is missing or corrupt"@,
            self is Truncated ==> r@ == "tin: index metapage is truncated"@,
            self is Version ==> r@ == version_text(self->Version_0),
    {
        match self {
            MetaError::Missing => "tin: index metapage is missing or corrupt".to_owned(),
            MetaError::Truncated => "tin: index metapage is truncated".to_owned(),
            MetaError::Version(v) => {
                let n: String = text_of(&number_string(*v as u64));
                joined(&vec!["tin: index has on-disk format ", n.as_str(), ", this version needs 3; REINDEX it"])
            },
        }
    }
}

/// The message for another on-disk format.
pub open spec fn version_text(v: u32) -> Seq<char> {
    "tin: index has on-disk format "@ + number_text(v as int) + ", this version needs 3; REINDEX it"@
}

// ---------------------------------------------------------------------------
// Fields
// ---------------------------------------------------------------------------

/// Numbers of given widths, one after the other.
pub open spec fn fields_bytes(fs: Seq<(nat, nat)>) -> Seq<u8>
    decreases fs.len(),
{
    if fs.len() == 0 {
        Seq::empty()
    } else {
        fields_bytes(fs.drop_last()) + le_seq(fs.last().0, fs.last().1)
    }
}

/// Where field `i` starts.
pub open spec fn field_start(fs: Seq<(nat, nat)>, i: int) -> int
    decreases i,
{
    if i <= 0 {
        0
    } else {
        field_start(fs, i - 1) + fs[i - 1].1
    }
}

proof fn lemma_fields(fs: Seq<(nat, nat)>, b: Seq<u8>, off: int)
    requires
        embeds(fields_bytes(fs), b, off),
        forall|i: int| 0 <= i < fs.len() ==> (#[trigger] fs[i]).0 < le_limit(fs[i].1),
    ensures
        fields_bytes(fs).len() == field_start(fs, fs.len() as int),
        forall|i: int| 0 <= i < fs.len() ==> le_val(b, off + field_start(fs, i), fs[i].1) == (#[trigger] fs[i]).0,
    decreases fs.len(),
{
    if fs.len() > 0 {
        let rest = fs.drop_last();
        let last = fs.last();
        lemma_embeds_parts(fields_bytes(rest), le_seq(last.0, last.1), b, off);
        assert forall|i: int| 0 <= i < rest.len() implies (#[trigger] rest[i]).0 < le_limit(rest[i].1) by {
            assert(rest[i] == fs[i]);
        }
        lemma_fields(rest, b, off);
        lemma_le_seq_len(last.0, last.1);
        lemma_start_same(rest, fs, rest.len() as int);
        lemma_le_at(b, off + fields_bytes(rest).len(), last.0, last.1);
        assert forall|i: int| 0 <= i < fs.len() implies le_val(b, off + field_start(fs, i), fs[i].1) == (#[trigger] fs[i]).0 by {
            if i < rest.len() {
                lemma_start_same(rest, fs, i);
                assert(rest[i] == fs[i]);
            }
        }
    }
}

proof fn lemma_start_same(a: Seq<(nat, nat)>, b: Seq<(nat, nat)>, i: int)
    requires
        0 <= i <= a.len() <= b.len(),
        forall|k: int| 0 <= k < a.len() ==> a[k] == b[k],
    ensures
        field_start(a, i) == field_start(b, i),
    decreases i,
{
    if i > 0 {
        lemma_start_same(a, b, i - 1);
    }
}

/// Bytes that stand somewhere, in two parts.
pub proof fn lemma_embeds_parts(a: Seq<u8>, c: Seq<u8>, b: Seq<u8>, off: int)
    requires
        embeds(a + c, b, off),
    ensures
        embeds(a, b, off),
        embeds(c, b, off + a.len()),
{
    assert forall|i: int| 0 <= i < a.len() implies #[trigger] a[i] == b[off + i] by {
        assert((a + c)[i] == a[i]);
    }
    assert forall|i: int| 0 <= i < c.len() implies #[trigger] c[i] == b[off + a.len() + i] by {
        assert((a + c)[a.len() + i] == c[i]);
        assert((a + c)[a.len() + i] == b[off + (a.len() + i)]);
    }
}

// ---------------------------------------------------------------------------
// Layout
// ---------------------------------------------------------------------------

pub open spec fn header_fields(m: Meta) -> Seq<(nat, nat)> {
    seq![
        (0x314E_4954nat, 4nat),
        (3nat, 4nat),
        (m.generation as nat, 8nat),
        (m.next_segment_id as nat, 4nat),
        (m.segments@.len(), 4nat),
        (m.pending_head as nat, 4nat),
        (m.pending_tail as nat, 4nat),
        (m.pending_tail_used as nat, 4nat),
        (m.retired@.len(), 4nat),
        (m.pending_bytes as nat, 8nat),
        (m.pending_count as nat, 8nat),
        (0nat, 8nat),
    ]
}

pub open spec fn entry_fields(s: SegmentRef) -> Seq<(nat, nat)> {
    seq![
        (s.id as nat, 4nat),
        (s.first_block as nat, 4nat),
        (s.n_blocks as nat, 4nat),
        (s.live_first as nat, 4nat),
        (s.live_blocks as nat, 4nat),
        (0nat, 4nat),
        (s.len as nat, 8nat),
    ]
}

pub open spec fn chain_fields(c: (u32, u32)) -> Seq<(nat, nat)> {
    seq![(c.0 as nat, 4nat), (c.1 as nat, 4nat)]
}

pub open spec fn entries_bytes(s: Seq<SegmentRef>) -> Seq<u8>
    decreases s.len(),
{
    if s.len() == 0 {
        Seq::empty()
    } else {
        entries_bytes(s.drop_last()) + fields_bytes(entry_fields(s.last()))
    }
}

pub open spec fn chains_bytes(s: Seq<(u32, u32)>) -> Seq<u8>
    decreases s.len(),
{
    if s.len() == 0 {
        Seq::empty()
    } else {
        chains_bytes(s.drop_last()) + fields_bytes(chain_fields(s.last()))
    }
}

/// The metapage's bytes.
pub open spec fn meta_bytes(m: Meta) -> Seq<u8> {
    fields_bytes(header_fields(m)) + entries_bytes(m.segments@) + chains_bytes(m.retired@)
}

/// The size of a metapage with this many entries.
pub open spec fn meta_size(segments: int, retired: int) -> int {
    META_HEADER + segments * META_ENTRY + retired * 8
}

/// The segment entry at `at`.
pub open spec fn entry_at(b: Seq<u8>, at: int) -> SegmentRef {
    SegmentRef {
        id: le_val(b, at, 4) as u32,
        first_block: le_val(b, at + 4, 4) as u32,
        n_blocks: le_val(b, at + 8, 4) as u32,
        live_first: le_val(b, at + 12, 4) as u32,
        live_blocks: le_val(b, at + 16, 4) as u32,
        len: le_val(b, at + 24, 8) as u64,
    }
}

/// The retired chain at `at`.
pub open spec fn chain_at(b: Seq<u8>, at: int) -> (u32, u32) {
    (le_val(b, at, 4) as u32, le_val(b, at + 4, 4) as u32)
}

/// What is wrong with the bytes of a metapage, if anything.
pub open spec fn meta_fault(b: Seq<u8>) -> Option<MetaError> {
    if b.len() < 8 || le_val(b, 0, 4) != META_MAGIC {
        Some(MetaError::Missing)
    } else if le_val(b, 4, 4) != META_VERSION {
        Some(MetaError::Version(le_val(b, 4, 4) as u32))
    } else if b.len() < META_HEADER || b.len() < meta_size(le_val(b, 20, 4) as int, le_val(b, 36, 4) as int) {
        Some(MetaError::Truncated)
    } else {
        None
    }
}

/// What the bytes of a metapage say.
pub open spec fn meta_reads(m: Meta, b: Seq<u8>) -> bool {
    &&& m.generation == le_val(b, 8, 8)
    &&& m.next_segment_id == le_val(b, 16, 4)
    &&& m.pending_head == le_val(b, 24, 4)
    &&& m.pending_tail == le_val(b, 28, 4)
    &&& m.pending_tail_used == le_val(b, 32, 4)
    &&& m.pending_bytes == le_val(b, 40, 8)
    &&& m.pending_count == le_val(b, 48, 8)
    &&& m.segments@.len() == le_val(b, 20, 4)
    &&& m.retired@.len() == le_val(b, 36, 4)
    &&& forall|i: int| 0 <= i < m.segments@.len() ==> #[trigger] m.segments@[i] == entry_at(b, 64 + i * 32)
    &&& forall|i: int| 0 <= i < m.retired@.len() ==> #[trigger] m.retired@[i] == chain_at(b, 64 + m.segments@.len() * 32 + i * 8)
}

/// Two metapages with the same contents.
pub open spec fn same_meta(a: Meta, b: Meta) -> bool {
    &&& a.generation == b.generation
    &&& a.next_segment_id == b.next_segment_id
    &&& a.pending_head == b.pending_head
    &&& a.pending_tail == b.pending_tail
    &&& a.pending_tail_used == b.pending_tail_used
    &&& a.pending_bytes == b.pending_bytes
    &&& a.pending_count == b.pending_count
    &&& a.segments@ == b.segments@
    &&& a.retired@ == b.retired@
}

impl Meta {
    pub fn empty() -> (r: Meta)
        ensures
            r.generation == 1,
            r.next_segment_id == 0,
            r.pending_head == INVALID_BLOCK,
            r.pending_tail == INVALID_BLOCK,
            r.pending_tail_used == 0,
            r.pending_bytes == 0,
            r.pending_count == 0,
            r.segments@.len() == 0,
            r.retired@.len() == 0,
    {
        Meta {
            generation: 1,
            next_segment_id: 0,
            pending_head: INVALID_BLOCK,
            pending_tail: INVALID_BLOCK,
            pending_tail_used: 0,
            pending_bytes: 0,
            pending_count: 0,
            segments: Vec::new(),
            retired: Vec::new(),
        }
    }

    /// The encoded metapage fits in one page.
    pub open spec fn spec_fits(&self) -> bool {
        meta_size(self.segments@.len() as int, self.retired@.len() as int) <= PAGE_PAYLOAD
    }

    /// Whether one more segment entry fits in the metapage.
    pub fn can_add_segment(&self) -> (r: bool)
        ensures
            r == (meta_size(self.segments@.len() as int + 1, self.retired@.len() as int) <= PAGE_PAYLOAD),
    {
        let (s, t): (usize, usize) = (self.segments.len(), self.retired.len());
        if s > MAX_SEGMENTS || t > PAGE_PAYLOAD {
            return false;
        }
        META_HEADER + (s + 1) * META_ENTRY + t * 8 <= PAGE_PAYLOAD
    }

    /// Whether the encoded metapage fits in one page.
    pub fn fits(&self) -> (r: bool)
        ensures
            r == self.spec_fits(),
    {
        let (s, t): (usize, usize) = (self.segments.len(), self.retired.len());
        if s > MAX_SEGMENTS || t > PAGE_PAYLOAD {
            return false;
        }
        META_HEADER + s * META_ENTRY + t * 8 <= PAGE_PAYLOAD
    }

    /// A copy.
    pub fn copy(&self) -> (r: Meta)
        ensures
            same_meta(r, *self),
    {
        let mut segments: Vec<SegmentRef> = Vec::new();
        let mut i: usize = 0;
        while i < self.segments.len()
            invariant
                i <= self.segments@.len(),
                segments@ == self.segments@.take(i as int),
            decreases self.segments@.len() - i,
        {
            segments.push(self.segments[i]);
            i = i + 1;
            proof {
                assert(segments@ =~= self.segments@.take(i as int));
            }
        }
        let mut retired: Vec<(u32, u32)> = Vec::new();
        let mut j: usize = 0;
        while j < self.retired.len()
            invariant
                j <= self.retired@.len(),
                retired@ == self.retired@.take(j as int),
            decreases self.retired@.len() - j,
        {
            retired.push((self.retired[j].0, self.retired[j].1));
            j = j + 1;
            proof {
                assert(retired@ =~= self.retired@.take(j as int));
            }
        }
        proof {
            assert(self.segments@.take(i as int) =~= self.segments@);
            assert(self.retired@.take(j as int) =~= self.retired@);
        }
        Meta {
            generation: self.generation,
            next_segment_id: self.next_segment_id,
            pending_head: self.pending_head,
            pending_tail: self.pending_tail,
            pending_tail_used: self.pending_tail_used,
            pending_bytes: self.pending_bytes,
            pending_count: self.pending_count,
            segments,
            retired,
        }
    }

    /// The metapage's bytes.
    pub fn encode(&self) -> (r: Vec<u8>)
        requires
            self.spec_fits(),
        ensures
            r@ == meta_bytes(*self),
            r@.len() == meta_size(self.segments@.len() as int, self.retired@.len() as int),
            r@.len() <= PAGE_PAYLOAD,
    {
        let mut out: Vec<u8> = Vec::new();
        self.put_header(&mut out);
        let ghost head = out@;
        let mut i: usize = 0;
        proof {
            assert(self.segments@.take(0) =~= Seq::empty());
        }
        while i < self.segments.len()
            invariant
                i <= self.segments@.len(),
                out@ == head + entries_bytes(self.segments@.take(i as int)),
            decreases self.segments@.len() - i,
        {
            let ghost was = out@;
            put_entry(&mut out, &self.segments[i]);
            proof {
                let next = self.segments@.take(i + 1);
                assert(next.drop_last() =~= self.segments@.take(i as int));
                assert(next.last() == self.segments@[i as int]);
                assert(out@ =~= head + entries_bytes(next));
            }
            i = i + 1;
        }
        let ghost mid = out@;
        let mut j: usize = 0;
        proof {
            assert(self.segments@.take(i as int) =~= self.segments@);
            assert(self.retired@.take(0) =~= Seq::empty());
        }
        while j < self.retired.len()
            invariant
                j <= self.retired@.len(),
                out@ == mid + chains_bytes(self.retired@.take(j as int)),
            decreases self.retired@.len() - j,
        {
            let ghost was = out@;
            let (head, pages): (u32, u32) = (self.retired[j].0, self.retired[j].1);
            put_le(&mut out, head as u64, 4);
            put_le(&mut out, pages as u64, 4);
            proof {
                let next = self.retired@.take(j + 1);
                assert(next.drop_last() =~= self.retired@.take(j as int));
                let c = self.retired@[j as int];
                assert(next.last() == c);
                lemma_chain_fields(c);
                assert(out@ =~= was + fields_bytes(chain_fields(c)));
                assert(out@ =~= mid + chains_bytes(next));
            }
            j = j + 1;
        }
        proof {
            assert(self.retired@.take(j as int) =~= self.retired@);
            assert(out@ =~= meta_bytes(*self));
            lemma_meta_len(*self);
        }
        out
    }

    fn put_header(&self, out: &mut Vec<u8>)
        requires
            self.segments@.len() <= u32::MAX,
            self.retired@.len() <= u32::MAX,
        ensures
            final(out)@ == old(out)@ + fields_bytes(header_fields(*self)),
    {
        let ghost start = out@;
        put_le(out, META_MAGIC as u64, 4);
        put_le(out, META_VERSION as u64, 4);
        put_le(out, self.generation, 8);
        put_le(out, self.next_segment_id as u64, 4);
        put_le(out, self.segments.len() as u64, 4);
        put_le(out, self.pending_head as u64, 4);
        put_le(out, self.pending_tail as u64, 4);
        put_le(out, self.pending_tail_used as u64, 4);
        put_le(out, self.retired.len() as u64, 4);
        put_le(out, self.pending_bytes, 8);
        put_le(out, self.pending_count, 8);
        put_le(out, 0, 8);
        proof {
            let h = header_fields(*self);
            lemma_header_bytes(*self);
            assert(out@ =~= start + fields_bytes(h));
        }
    }

    /// Read a metapage.
    pub fn decode(b: &[u8]) -> (r: Result<Meta, MetaError>)
        ensures
            match r {
                Ok(m) => meta_fault(b@) is None && meta_reads(m, b@),
                Err(e) => meta_fault(b@) == Some(e),
            },
    {
        proof {
            lemma_le_limits();
        }
        if b.len() < 8 || get_le(b, 0, 4) != META_MAGIC as u64 {
            return Err(MetaError::Missing);
        }
        let version: u64 = get_le(b, 4, 4);
        if version != META_VERSION as u64 {
            return Err(MetaError::Version(version as u32));
        }
        if b.len() < META_HEADER {
            return Err(MetaError::Truncated);
        }
        let (n, n_retired): (u64, u64) = (get_le(b, 20, 4), get_le(b, 36, 4));
        if (b.len() as u64) < 64 + n * 32 + n_retired * 8 {
            return Err(MetaError::Truncated);
        }
        let len: usize = b.len();
        let (n, n_retired): (usize, usize) = (n as usize, n_retired as usize);
        let mut segments: Vec<SegmentRef> = Vec::new();
        let mut i: usize = 0;
        while i < n
            invariant
                i <= n,
                len == b@.len(),
                64 + n * 32 + n_retired * 8 <= len,
                segments@.len() == i,
                forall|k: int| 0 <= k < i ==> #[trigger] segments@[k] == entry_at(b@, 64 + k * 32),
            decreases n - i,
        {
            let at: usize = META_HEADER + i * META_ENTRY;
            proof {
                lemma_le_limits();
            }
            segments.push(
                SegmentRef {
                    id: get_le(b, at, 4) as u32,
                    first_block: get_le(b, at + 4, 4) as u32,
                    n_blocks: get_le(b, at + 8, 4) as u32,
                    live_first: get_le(b, at + 12, 4) as u32,
                    live_blocks: get_le(b, at + 16, 4) as u32,
                    len: get_le(b, at + 24, 8),
                },
            );
            i = i + 1;
        }
        let retired_at: usize = META_HEADER + n * META_ENTRY;
        let mut retired: Vec<(u32, u32)> = Vec::new();
        let mut j: usize = 0;
        while j < n_retired
            invariant
                j <= n_retired,
                len == b@.len(),
                retired_at == 64 + n * 32,
                retired_at + n_retired * 8 <= len,
                retired@.len() == j,
                forall|k: int| 0 <= k < j ==> #[trigger] retired@[k] == chain_at(b@, retired_at + k * 8),
            decreases n_retired - j,
        {
            let at: usize = retired_at + j * 8;
            proof {
                lemma_le_limits();
            }
            retired.push((get_le(b, at, 4) as u32, get_le(b, at + 4, 4) as u32));
            j = j + 1;
        }
        Ok(
            Meta {
                retired,
                generation: get_le(b, 8, 8),
                next_segment_id: get_le(b, 16, 4) as u32,
                pending_head: get_le(b, 24, 4) as u32,
                pending_tail: get_le(b, 28, 4) as u32,
                pending_tail_used: get_le(b, 32, 4) as u32,
                pending_bytes: get_le(b, 40, 8),
                pending_count: get_le(b, 48, 8),
                segments,
            },
        )
    }
}

fn put_entry(out: &mut Vec<u8>, s: &SegmentRef)
    ensures
        final(out)@ == old(out)@ + fields_bytes(entry_fields(*s)),
{
    let ghost start = out@;
    put_le(out, s.id as u64, 4);
    put_le(out, s.first_block as u64, 4);
    put_le(out, s.n_blocks as u64, 4);
    put_le(out, s.live_first as u64, 4);
    put_le(out, s.live_blocks as u64, 4);
    put_le(out, 0, 4);
    put_le(out, s.len, 8);
    proof {
        lemma_entry_bytes(*s);
        assert(out@ =~= start + fields_bytes(entry_fields(*s)));
    }
}

proof fn lemma_header_bytes(m: Meta)
    ensures
        fields_bytes(header_fields(m)) == le_seq(META_MAGIC as nat, 4) + le_seq(META_VERSION as nat, 4) + le_seq(m.generation as nat, 8)
            + le_seq(m.next_segment_id as nat, 4) + le_seq(m.segments@.len(), 4) + le_seq(m.pending_head as nat, 4)
            + le_seq(m.pending_tail as nat, 4) + le_seq(m.pending_tail_used as nat, 4) + le_seq(m.retired@.len(), 4)
            + le_seq(m.pending_bytes as nat, 8) + le_seq(m.pending_count as nat, 8) + le_seq(0, 8),
{
    let h = header_fields(m);
    lemma_take_fields(h, 1);
    lemma_take_fields(h, 2);
    lemma_take_fields(h, 3);
    lemma_take_fields(h, 4);
    lemma_take_fields(h, 5);
    lemma_take_fields(h, 6);
    lemma_take_fields(h, 7);
    lemma_take_fields(h, 8);
    lemma_take_fields(h, 9);
    lemma_take_fields(h, 10);
    lemma_take_fields(h, 11);
    lemma_take_fields(h, 12);
    assert(h.take(0) =~= Seq::empty());
    assert(h.take(12) =~= h);
    assert(Seq::<u8>::empty() + le_seq(META_MAGIC as nat, 4) =~= le_seq(META_MAGIC as nat, 4));
}

/// The first `i` fields end with field `i - 1`.
proof fn lemma_take_fields(fs: Seq<(nat, nat)>, i: int)
    requires
        1 <= i <= fs.len(),
    ensures
        fields_bytes(fs.take(i)) == fields_bytes(fs.take(i - 1)) + le_seq(fs[i - 1].0, fs[i - 1].1),
{
    assert(fs.take(i).drop_last() =~= fs.take(i - 1));
}

proof fn lemma_entry_bytes(s: SegmentRef)
    ensures
        fields_bytes(entry_fields(s)) == le_seq(s.id as nat, 4) + le_seq(s.first_block as nat, 4) + le_seq(s.n_blocks as nat, 4)
            + le_seq(s.live_first as nat, 4) + le_seq(s.live_blocks as nat, 4) + le_seq(0, 4) + le_seq(s.len as nat, 8),
{
    let h = entry_fields(s);
    lemma_take_fields(h, 1);
    lemma_take_fields(h, 2);
    lemma_take_fields(h, 3);
    lemma_take_fields(h, 4);
    lemma_take_fields(h, 5);
    lemma_take_fields(h, 6);
    lemma_take_fields(h, 7);
    assert(h.take(0) =~= Seq::empty());
    assert(h.take(7) =~= h);
    assert(Seq::<u8>::empty() + le_seq(s.id as nat, 4) =~= le_seq(s.id as nat, 4));
}

proof fn lemma_chain_fields(c: (u32, u32))
    ensures
        fields_bytes(chain_fields(c)) == le_seq(c.0 as nat, 4) + le_seq(c.1 as nat, 4),
{
    let h = chain_fields(c);
    lemma_take_fields(h, 1);
    lemma_take_fields(h, 2);
    assert(h.take(0) =~= Seq::empty());
    assert(h.take(2) =~= h);
    assert(Seq::<u8>::empty() + le_seq(c.0 as nat, 4) =~= le_seq(c.0 as nat, 4));
}

proof fn lemma_header_starts(m: Meta)
    ensures
        field_start(header_fields(m), 0) == 0,
        field_start(header_fields(m), 1) == 4,
        field_start(header_fields(m), 2) == 8,
        field_start(header_fields(m), 3) == 16,
        field_start(header_fields(m), 4) == 20,
        field_start(header_fields(m), 5) == 24,
        field_start(header_fields(m), 6) == 28,
        field_start(header_fields(m), 7) == 32,
        field_start(header_fields(m), 8) == 36,
        field_start(header_fields(m), 9) == 40,
        field_start(header_fields(m), 10) == 48,
        field_start(header_fields(m), 11) == 56,
        field_start(header_fields(m), 12) == 64,
{
    reveal_with_fuel(field_start, 13);
}

proof fn lemma_entry_starts(s: SegmentRef)
    ensures
        field_start(entry_fields(s), 0) == 0,
        field_start(entry_fields(s), 1) == 4,
        field_start(entry_fields(s), 2) == 8,
        field_start(entry_fields(s), 3) == 12,
        field_start(entry_fields(s), 4) == 16,
        field_start(entry_fields(s), 5) == 20,
        field_start(entry_fields(s), 6) == 24,
        field_start(entry_fields(s), 7) == 32,
{
    reveal_with_fuel(field_start, 8);
}

proof fn lemma_chain_starts(c: (u32, u32))
    ensures
        field_start(chain_fields(c), 0) == 0,
        field_start(chain_fields(c), 1) == 4,
        field_start(chain_fields(c), 2) == 8,
{
    reveal_with_fuel(field_start, 3);
}

proof fn lemma_self_embeds(b: Seq<u8>)
    ensures
        embeds(b, b, 0),
{
}

/// A segment entry reads back.
proof fn lemma_entry_back(s: SegmentRef, b: Seq<u8>, at: int)
    requires
        embeds(fields_bytes(entry_fields(s)), b, at),
    ensures
        entry_at(b, at) == s,
{
    lemma_le_limits();
    let f = entry_fields(s);
    lemma_fields(f, b, at);
    lemma_entry_starts(s);
    assert(f[0].0 == s.id && f[1].0 == s.first_block && f[2].0 == s.n_blocks && f[3].0 == s.live_first && f[4].0 == s.live_blocks
        && f[6].0 == s.len);
}

proof fn lemma_entry_len(s: SegmentRef)
    ensures
        fields_bytes(entry_fields(s)).len() == 32,
{
    lemma_le_limits();
    lemma_self_embeds(fields_bytes(entry_fields(s)));
    lemma_fields(entry_fields(s), fields_bytes(entry_fields(s)), 0);
    lemma_entry_starts(s);
}

proof fn lemma_entries(s: Seq<SegmentRef>, b: Seq<u8>, off: int)
    requires
        embeds(entries_bytes(s), b, off),
    ensures
        entries_bytes(s).len() == s.len() * 32,
        forall|i: int| 0 <= i < s.len() ==> entry_at(b, off + i * 32) == #[trigger] s[i],
    decreases s.len(),
{
    if s.len() > 0 {
        let (rest, last) = (s.drop_last(), s.last());
        lemma_embeds_parts(entries_bytes(rest), fields_bytes(entry_fields(last)), b, off);
        lemma_entries(rest, b, off);
        lemma_entry_len(last);
        lemma_entry_back(last, b, off + entries_bytes(rest).len());
        assert forall|i: int| 0 <= i < s.len() implies entry_at(b, off + i * 32) == #[trigger] s[i] by {
            if i < rest.len() {
                assert(rest[i] == s[i]);
            }
        }
    }
}

proof fn lemma_chains(s: Seq<(u32, u32)>, b: Seq<u8>, off: int)
    requires
        embeds(chains_bytes(s), b, off),
    ensures
        chains_bytes(s).len() == s.len() * 8,
        forall|i: int| 0 <= i < s.len() ==> chain_at(b, off + i * 8) == #[trigger] s[i],
    decreases s.len(),
{
    if s.len() > 0 {
        let (rest, last) = (s.drop_last(), s.last());
        let f = chain_fields(last);
        lemma_embeds_parts(chains_bytes(rest), fields_bytes(f), b, off);
        lemma_chains(rest, b, off);
        lemma_le_limits();
        lemma_fields(f, b, off + chains_bytes(rest).len());
        lemma_chain_starts(last);
        assert(f[0].0 == last.0 && f[1].0 == last.1);
        assert forall|i: int| 0 <= i < s.len() implies chain_at(b, off + i * 8) == #[trigger] s[i] by {
            if i < rest.len() {
                assert(rest[i] == s[i]);
            }
        }
    }
}

proof fn lemma_meta_len(m: Meta)
    requires
        m.segments@.len() <= u32::MAX,
        m.retired@.len() <= u32::MAX,
    ensures
        meta_bytes(m).len() == meta_size(m.segments@.len() as int, m.retired@.len() as int),
{
    lemma_le_limits();
    let h = header_fields(m);
    lemma_self_embeds(fields_bytes(h));
    lemma_fields(h, fields_bytes(h), 0);
    lemma_header_starts(m);
    lemma_self_embeds(entries_bytes(m.segments@));
    lemma_entries(m.segments@, entries_bytes(m.segments@), 0);
    lemma_self_embeds(chains_bytes(m.retired@));
    lemma_chains(m.retired@, chains_bytes(m.retired@), 0);
}

// ---------------------------------------------------------------------------
// Laws
// ---------------------------------------------------------------------------

/// The bytes of a metapage have no fault.
pub proof fn meta_bytes_are_sound(m: Meta)
    requires
        m.spec_fits(),
    ensures
        meta_fault(meta_bytes(m)) is None,
{
    let b = meta_bytes(m);
    let (h, e, c) = (fields_bytes(header_fields(m)), entries_bytes(m.segments@), chains_bytes(m.retired@));
    lemma_meta_len(m);
    lemma_le_limits();
    lemma_self_embeds(b);
    lemma_embeds_parts(h + e, c, b, 0);
    lemma_embeds_parts(h, e, b, 0);
    let f = header_fields(m);
    lemma_fields(f, b, 0);
    lemma_header_starts(m);
    assert(f[0].0 == META_MAGIC && f[1].0 == META_VERSION && f[2].0 == m.generation && f[3].0 == m.next_segment_id && f[4].0
        == m.segments@.len() && f[5].0 == m.pending_head && f[6].0 == m.pending_tail && f[7].0 == m.pending_tail_used && f[8].0
        == m.retired@.len() && f[9].0 == m.pending_bytes && f[10].0 == m.pending_count);
}

/// A metapage reads back from its bytes: whatever reads them has the same
/// contents.
pub proof fn meta_reads_back(m: Meta, r: Meta)
    requires
        m.spec_fits(),
        meta_reads(r, meta_bytes(m)),
    ensures
        meta_fault(meta_bytes(m)) is None,
        same_meta(m, r),
{
    let b = meta_bytes(m);
    let (h, e, c) = (fields_bytes(header_fields(m)), entries_bytes(m.segments@), chains_bytes(m.retired@));
    lemma_meta_len(m);
    lemma_le_limits();
    lemma_self_embeds(b);
    lemma_embeds_parts(h + e, c, b, 0);
    lemma_embeds_parts(h, e, b, 0);
    let f = header_fields(m);
    lemma_fields(f, b, 0);
    lemma_header_starts(m);
    lemma_entries(m.segments@, b, 64);
    lemma_chains(m.retired@, b, (64 + m.segments@.len() * 32) as int);
    assert(f[0].0 == META_MAGIC && f[1].0 == META_VERSION && f[2].0 == m.generation && f[3].0 == m.next_segment_id && f[4].0
        == m.segments@.len() && f[5].0 == m.pending_head && f[6].0 == m.pending_tail && f[7].0 == m.pending_tail_used && f[8].0
        == m.retired@.len() && f[9].0 == m.pending_bytes && f[10].0 == m.pending_count);
    assert(m.segments@ =~= r.segments@);
    assert(m.retired@ =~= r.retired@);
}

/// The metapage has room for 253 segments, or for fewer and four retired
/// chains for each of them.
pub proof fn metapage_holds_its_tables(segments: int, retired: int)
    requires
        0 <= segments,
        0 <= retired,
    ensures
        meta_size(segments, retired) <= 8168 <==> 4 * segments + retired <= 1013,
        meta_size(253, 0) <= 8168 < meta_size(254, 0),
{
}

} // verus!
