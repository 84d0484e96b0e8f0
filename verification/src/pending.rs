//! Pending-list records: one per tuple inserted since the last flush.
//!
//! ```text
//! record := varint(body_len) body
//! body   := u32 block  u16 offset  varint(n_terms)  (varint(len) term_bytes)*
//! ```
//!
//! Terms are the document's distinct analyzed terms, sorted, so queries can
//! evaluate a record with a binary search per term.

use vstd::prelude::*;
use vstd::utf8::{decode_utf8, encode_utf8, valid_utf8};
use crate::dict::utf8_string;
use crate::le::{get_le, le_seq, le_val, lemma_le_at, lemma_le_limits, lemma_le_seq_len, put_le};
use crate::plan::{plan_matches, Plan, SortedTerms};
use crate::tid::{Tid, MAX_OFFSET};
use crate::tokenize::{sorted_terms, strings_view};
use crate::varint;
use crate::varint::{embeds, leb_bytes, leb_len, leb_ok, leb_val, lemma_leb_at, lemma_leb_bytes_len, lemma_leb_len_bound, two_64};

verus! {

/// A pending-list record.
#[derive(Debug, PartialEq, Eq)]
pub struct Record {
    pub tid: Tid,
    pub terms: Vec<String>,
}

/// What a record says: its tuple and its terms.
pub type RecordView = (Tid, Seq<Seq<char>>);

impl View for Record {
    type V = RecordView;

    open spec fn view(&self) -> RecordView {
        (self.tid, strings_view(self.terms@))
    }
}

/// What a list of records says.
pub open spec fn record_views(s: Seq<Record>) -> Seq<RecordView> {
    s.map_values(|r: Record| r@)
}

/// A term: its length in bytes, then its bytes.
pub open spec fn term_bytes(t: Seq<char>) -> Seq<u8> {
    leb_bytes(encode_utf8(t).len()) + encode_utf8(t)
}

/// Terms one after the other.
pub open spec fn terms_bytes(ts: Seq<Seq<char>>) -> Seq<u8>
    decreases ts.len(),
{
    if ts.len() == 0 {
        Seq::empty()
    } else {
        terms_bytes(ts.drop_last()) + term_bytes(ts.last())
    }
}

/// The body of a record.
pub open spec fn body_bytes(r: RecordView) -> Seq<u8> {
    le_seq(r.0.block as nat, 4) + le_seq(r.0.offset as nat, 2) + leb_bytes(r.1.len()) + terms_bytes(r.1)
}

/// A record.
pub open spec fn record_bytes(r: RecordView) -> Seq<u8> {
    leb_bytes(body_bytes(r).len()) + body_bytes(r)
}

/// Records one after the other.
pub open spec fn stream_bytes(rs: Seq<RecordView>) -> Seq<u8>
    decreases rs.len(),
{
    if rs.len() == 0 {
        Seq::empty()
    } else {
        stream_bytes(rs.drop_last()) + record_bytes(rs.last())
    }
}

/// A whole number at `p`: what it is, and where it ends.
pub open spec fn number_at(b: Seq<u8>, p: int) -> Option<(int, int)> {
    if leb_ok(b, p) {
        Some(((leb_val(b, p) % two_64()) as int, p + leb_len(b, p)))
    } else {
        None
    }
}

/// The term at `p`: what it is, and where it ends.
pub open spec fn term_at(b: Seq<u8>, p: int) -> Option<(Seq<char>, int)> {
    match number_at(b, p) {
        Some((l, q)) => if q + l <= b.len() && valid_utf8(b.subrange(q, q + l)) {
            Some((decode_utf8(b.subrange(q, q + l)), q + l))
        } else {
            None
        },
        None => None,
    }
}

/// `n` terms from `p` on, and where they end.
pub open spec fn terms_at(b: Seq<u8>, p: int, n: int) -> Option<(Seq<Seq<char>>, int)>
    decreases n,
{
    if n <= 0 {
        Some((Seq::empty(), p))
    } else {
        match terms_at(b, p, n - 1) {
            Some((ts, q)) => match term_at(b, q) {
                Some((t, e)) => Some((ts.push(t), e)),
                None => None,
            },
            None => None,
        }
    }
}

/// The record of a body.
pub open spec fn body_record(b: Seq<u8>) -> Option<RecordView> {
    if b.len() < 6 {
        None
    } else {
        match number_at(b, 6) {
            Some((n, p)) => match terms_at(b, p, n) {
                Some((ts, e)) => {
                    let tid = Tid { block: le_val(b, 0, 4) as u32, offset: le_val(b, 4, 2) as u16 };
                    if e == b.len() && tid.valid() {
                        Some((tid, ts))
                    } else {
                        None
                    }
                },
                None => None,
            },
            None => None,
        }
    }
}

/// The record at `pos`.
pub open spec fn record_at(b: Seq<u8>, pos: int) -> Option<RecordView> {
    match number_at(b, pos) {
        Some((l, p)) => if p + l <= b.len() {
            body_record(b.subrange(p, p + l))
        } else {
            None
        },
        None => None,
    }
}

/// How far reading the record at `pos` gets.
pub open spec fn stop_at(b: Seq<u8>, pos: int) -> int {
    match number_at(b, pos) {
        Some((l, p)) => if p + l <= b.len() {
            p + l
        } else {
            p
        },
        None => if pos + 10 <= b.len() {
            pos + 10
        } else {
            b.len() as int
        },
    }
}

/// The records from `pos` on; `Err` says how far a bad one was read.
pub open spec fn records_from(b: Seq<u8>, pos: int) -> Result<Seq<RecordView>, int>
    decreases b.len() - pos,
{
    if pos < 0 || pos >= b.len() {
        Ok(Seq::empty())
    } else {
        match record_at(b, pos) {
            Some(r) => if stop_at(b, pos) > pos {
                match records_from(b, stop_at(b, pos)) {
                    Ok(rest) => Ok(seq![r] + rest),
                    Err(at) => Err(at),
                }
            } else {
                Err(pos)
            },
            None => Err(stop_at(b, pos)),
        }
    }
}

impl Record {
    pub fn matches(&self, plan: &Plan) -> (r: bool)
        requires
            sorted_terms(self@.1),
        ensures
            r == plan_matches(plan.view(), self@.1.to_set()),
    {
        plan.matches(&SortedTerms(self.terms.as_slice()))
    }
}

/// Append `b` to `out`.
pub(crate) fn put_bytes(out: &mut Vec<u8>, b: &[u8])
    ensures
        final(out)@ == old(out)@ + b@,
{
    let ghost start = out@;
    let mut i: usize = 0;
    while i < b.len()
        invariant
            i <= b@.len(),
            out@ == start + b@.take(i as int),
        decreases b@.len() - i,
    {
        out.push(b[i]);
        i = i + 1;
        proof {
            assert(out@ =~= start + b@.take(i as int));
        }
    }
    proof {
        assert(b@.take(i as int) =~= b@);
    }
}

/// Encode one record (`terms` sorted and distinct).
pub fn encode(tid: Tid, terms: &[String]) -> (r: Vec<u8>)
    ensures
        r@ == record_bytes((tid, strings_view(terms@))),
{
    let ghost ts = strings_view(terms@);
    let mut body: Vec<u8> = Vec::new();
    put_le(&mut body, tid.block as u64, 4);
    put_le(&mut body, tid.offset as u64, 2);
    varint::put(&mut body, terms.len() as u64);
    let ghost head = body@;
    let mut i: usize = 0;
    proof {
        assert(ts.take(0) =~= Seq::empty());
        assert(head =~= le_seq(tid.block as nat, 4) + le_seq(tid.offset as nat, 2) + leb_bytes(ts.len()));
    }
    while i < terms.len()
        invariant
            i <= terms@.len(),
            ts == strings_view(terms@),
            body@ == head + terms_bytes(ts.take(i as int)),
        decreases terms@.len() - i,
    {
        let t: &[u8] = terms[i].as_str().as_bytes();
        let ghost was = body@;
        varint::put(&mut body, t.len() as u64);
        put_bytes(&mut body, t);
        proof {
            let next = ts.take(i + 1);
            assert(ts[i as int] == terms@[i as int]@);
            assert(next.drop_last() =~= ts.take(i as int));
            assert(next.last() == ts[i as int]);
            assert(body@ =~= was + term_bytes(ts[i as int]));
            assert(body@ =~= head + terms_bytes(next));
        }
        i = i + 1;
    }
    proof {
        assert(ts.take(i as int) =~= ts);
        assert(body@ =~= body_bytes((tid, ts)));
    }
    let mut out: Vec<u8> = Vec::new();
    varint::put(&mut out, body.len() as u64);
    put_bytes(&mut out, body.as_slice());
    proof {
        assert(out@ =~= record_bytes((tid, ts)));
    }
    out
}

/// Decode a stream of whole records; an error says at which byte the stream
/// is corrupt.
pub fn decode_all(b: &[u8]) -> (r: Result<Vec<Record>, usize>)
    ensures
        match r {
            Ok(rs) => records_from(b@, 0) == Ok::<Seq<RecordView>, int>(record_views(rs@)),
            Err(at) => records_from(b@, 0) == Err::<Seq<RecordView>, int>(at as int),
        },
{
    let mut out: Vec<Record> = Vec::new();
    let mut pos: usize = 0;
    proof {
        lemma_prefixed(Seq::empty(), records_from(b@, 0));
        assert(record_views(out@) =~= Seq::empty());
    }
    while pos < b.len()
        invariant
            pos <= b@.len(),
            records_from(b@, 0) == prefixed(record_views(out@), records_from(b@, pos as int)),
        decreases b@.len() - pos,
    {
        let ghost at = pos as int;
        let ghost was = record_views(out@);
        let one: Option<Record> = decode_one(b, &mut pos);
        match one {
            Some(r) => {
                out.push(r);
                proof {
                    assert(record_views(out@) =~= was.push(r@));
                    let rest = records_from(b@, pos as int);
                    if let Ok(s) = rest {
                        assert(was + (seq![r@] + s) =~= was.push(r@) + s);
                    }
                }
            },
            None => {
                return Err(pos);
            },
        }
    }
    proof {
        assert(record_views(out@) + Seq::<RecordView>::empty() =~= record_views(out@));
    }
    Ok(out)
}

/// Records read before the others.
pub open spec fn prefixed(s: Seq<RecordView>, r: Result<Seq<RecordView>, int>) -> Result<Seq<RecordView>, int> {
    match r {
        Ok(t) => Ok(s + t),
        Err(at) => Err(at),
    }
}

proof fn lemma_prefixed(s: Seq<RecordView>, r: Result<Seq<RecordView>, int>)
    requires
        s.len() == 0,
    ensures
        prefixed(s, r) == r,
{
    if let Ok(t) = r {
        assert(s + t =~= t);
    }
}

/// A varint of at most ten bytes at `*pos`, advancing it.
fn get_varint(b: &[u8], pos: &mut usize) -> (r: Option<u64>)
    requires
        *old(pos) <= b@.len(),
    ensures
        match number_at(b@, *old(pos) as int) {
            Some((v, end)) => r == Some(v as u64) && v <= u64::MAX && *final(pos) == end && end > *old(pos),
            None => r is None && *final(pos) == (if *old(pos) + 10 <= b@.len() { *old(pos) + 10 } else { b@.len() as int }),
        },
        *old(pos) <= *final(pos) <= b@.len(),
{
    let start: usize = *pos;
    let n: usize = b.len();
    let mut i: usize = start;
    proof {
        lemma_leb_len_bound(b@, start as int);
    }
    while i < n && i - start < 10
        invariant
            start <= i <= n == b@.len(),
            i - start <= 10,
            *pos == start == *old(pos),
            forall|k: int| start <= k < i ==> #[trigger] b@[k] >= 128,
        decreases n - i,
    {
        if b[i] < 128 {
            proof {
                lemma_leb_here(b@, start as int, i as int);
            }
            let v: u64 = varint::get(b, pos);
            return Some(v);
        }
        i = i + 1;
    }
    proof {
        lemma_leb_none(b@, start as int, i as int);
    }
    *pos = i;
    None
}

/// A varint ends at its first byte below 128.
proof fn lemma_leb_here(b: Seq<u8>, pos: int, end: int)
    requires
        0 <= pos <= end < b.len(),
        b[end] < 128,
        forall|k: int| pos <= k < end ==> #[trigger] b[k] >= 128,
    ensures
        leb_len(b, pos) == end - pos + 1,
    decreases end - pos,
{
    if pos < end {
        assert(b[pos] >= 128);
        lemma_leb_here(b, pos + 1, end);
    }
}

/// Bytes of 128 and more end no varint.
proof fn lemma_leb_none(b: Seq<u8>, pos: int, end: int)
    requires
        0 <= pos <= end <= b.len(),
        end == b.len() || end == pos + 10,
        forall|k: int| pos <= k < end ==> #[trigger] b[k] >= 128,
    ensures
        !leb_ok(b, pos),
{
    lemma_leb_past(b, pos, end);
    lemma_leb_len_bound(b, end);
    if end == b.len() {
        assert(leb_len(b, end) == 0);
    }
}

proof fn lemma_leb_past(b: Seq<u8>, pos: int, end: int)
    requires
        0 <= pos <= end <= b.len(),
        forall|k: int| pos <= k < end ==> #[trigger] b[k] >= 128,
    ensures
        leb_len(b, end) == 0 ==> leb_len(b, pos) == 0,
        leb_len(b, end) > 0 ==> leb_len(b, pos) == end - pos + leb_len(b, end),
    decreases end - pos,
{
    if pos < end {
        assert(b[pos] >= 128);
        lemma_leb_past(b, pos + 1, end);
        lemma_leb_len_bound(b, end);
        lemma_leb_len_bound(b, pos + 1);
    }
}

/// Decode the record at `*pos`, advancing it.
pub fn decode_one(b: &[u8], pos: &mut usize) -> (r: Option<Record>)
    requires
        *old(pos) < b@.len(),
    ensures
        match r {
            Some(rec) => record_at(b@, *old(pos) as int) == Some(rec@) && *final(pos) > *old(pos),
            None => record_at(b@, *old(pos) as int) is None,
        },
        *final(pos) == stop_at(b@, *old(pos) as int),
        *final(pos) <= b@.len(),
{
    let n: usize = b.len();
    let len: u64 = match get_varint(b, pos) {
        Some(v) => v,
        None => return None,
    };
    if len > (n - *pos) as u64 {
        return None;
    }
    let from: usize = *pos;
    let to: usize = from + len as usize;
    *pos = to;
    let body: &[u8] = vstd::slice::slice_subrange(b, from, to);
    proof {
        assert(body@ == b@.subrange(from as int, to as int));
    }
    decode_body(body)
}

fn decode_body(body: &[u8]) -> (r: Option<Record>)
    ensures
        match r {
            Some(rec) => body_record(body@) == Some(rec@),
            None => body_record(body@) is None,
        },
{
    let m: usize = body.len();
    if m < 6 {
        return None;
    }
    proof {
        lemma_le_limits();
    }
    let block: u32 = get_le(body, 0, 4) as u32;
    let offset: u16 = get_le(body, 4, 2) as u16;
    let mut p: usize = 6;
    let n: u64 = match get_varint(body, &mut p) {
        Some(v) => v,
        None => return None,
    };
    let ghost p0 = p as int;
    let mut terms: Vec<String> = Vec::new();
    let mut k: u64 = 0;
    proof {
        assert(strings_view(terms@) =~= Seq::empty());
    }
    while k < n
        invariant
            k <= n,
            m == body@.len(),
            p <= m,
            number_at(body@, 6) == Some((n as int, p0)),
            m >= 6,
            terms_at(body@, p0, k as int) == Some((strings_view(terms@), p as int)),
        decreases n - k,
    {
        let ghost was = strings_view(terms@);
        let l: u64 = match get_varint(body, &mut p) {
            Some(v) => v,
            None => {
                proof {
                    lemma_terms_none(body@, p0, k + 1, n as int);
                }
                return None;
            },
        };
        if l > (m - p) as u64 {
            proof {
                lemma_terms_none(body@, p0, k + 1, n as int);
            }
            return None;
        }
        let end: usize = p + l as usize;
        let piece: &[u8] = vstd::slice::slice_subrange(body, p, end);
        proof {
            assert(piece@ == body@.subrange(p as int, end as int));
        }
        match utf8_string(piece) {
            Some(t) => {
                proof {
                    broadcast use vstd::utf8::encode_utf8_decode_utf8;
                    assert(decode_utf8(encode_utf8(t@)) == t@);
                }
                terms.push(t);
                proof {
                    assert(strings_view(terms@) =~= was.push(t@));
                }
            },
            None => {
                proof {
                    lemma_terms_none(body@, p0, k + 1, n as int);
                }
                return None;
            },
        }
        p = end;
        k = k + 1;
    }
    if p != m || offset < 1 || offset > MAX_OFFSET {
        return None;
    }
    Some(Record { tid: Tid::new(block, offset), terms })
}

/// Where some of the terms cannot be read, none can.
proof fn lemma_terms_none(b: Seq<u8>, p: int, k: int, n: int)
    requires
        0 <= k <= n,
        terms_at(b, p, k) is None,
    ensures
        terms_at(b, p, n) is None,
    decreases n - k,
{
    if k < n {
        lemma_terms_none(b, p, k + 1, n);
    }
}

// ---------------------------------------------------------------------------
// Laws
// ---------------------------------------------------------------------------

/// A list that can be written: fewer records, terms and bytes than a `u64`
/// counts, and tuples on heap pages.
pub open spec fn writable(r: RecordView) -> bool {
    r.0.valid() && body_bytes(r).len() <= u64::MAX && r.1.len() <= u64::MAX
}

proof fn lemma_number_at(b: Seq<u8>, p: int, v: nat)
    requires
        0 <= p,
        v < two_64(),
        embeds(leb_bytes(v), b, p),
    ensures
        number_at(b, p) == Some((v as int, p + leb_bytes(v).len())),
{
    lemma_leb_at(b, p, v);
    lemma_leb_bytes_len(v);
    assert(v % two_64() == v) by (nonlinear_arith)
        requires
            v < two_64(),
    ;
}

/// Bytes that stand somewhere, in two parts.
proof fn lemma_split(a: Seq<u8>, c: Seq<u8>, b: Seq<u8>, off: int)
    requires
        embeds(a + c, b, off),
    ensures
        embeds(a, b, off),
        embeds(c, b, off + a.len()),
{
    assert forall|i: int| 0 <= i < a.len() implies #[trigger] a[i] == b[off + i] by {
        assert((a + c)[i] == a[i]);
    }
    assert forall|i: int| 0 <= i < c.len() implies #[trigger] c[i] == b[off + a.len() + i] by {
        assert((a + c)[a.len() + i] == c[i]);
        assert((a + c)[a.len() + i] == b[off + (a.len() + i)]);
    }
}

proof fn lemma_terms_back(b: Seq<u8>, p: int, ts: Seq<Seq<char>>)
    requires
        embeds(terms_bytes(ts), b, p),
        b.len() <= u64::MAX,
    ensures
        terms_at(b, p, ts.len() as int) == Some((ts, p + terms_bytes(ts).len())),
    decreases ts.len(),
{
    broadcast use vstd::utf8::encode_utf8_valid_utf8, vstd::utf8::encode_utf8_decode_utf8;
    if ts.len() > 0 {
        let rest = ts.drop_last();
        let t = ts.last();
        let e = encode_utf8(t);
        lemma_split(terms_bytes(rest), term_bytes(t), b, p);
        lemma_terms_back(b, p, rest);
        let q = p + terms_bytes(rest).len();
        lemma_split(leb_bytes(e.len()), e, b, q);
        lemma_number_at(b, q, e.len());
        let s = q + leb_bytes(e.len()).len();
        assert(b.subrange(s, s + e.len()) =~= e) by {
            assert forall|i: int| 0 <= i < e.len() implies b.subrange(s, s + e.len())[i] == e[i] by {
                assert(e[i] == b[s + i]);
            }
        }
        assert(decode_utf8(e) == t);
        assert(rest.push(t) =~= ts);
    } else {
        assert(ts =~= Seq::empty());
    }
}

proof fn lemma_body_back(r: RecordView)
    requires
        writable(r),
    ensures
        body_record(body_bytes(r)) == Some(r),
{
    let b = body_bytes(r);
    let (x, y) = (le_seq(r.0.block as nat, 4), le_seq(r.0.offset as nat, 2));
    let (n, ts) = (leb_bytes(r.1.len()), terms_bytes(r.1));
    lemma_le_seq_len(r.0.block as nat, 4);
    lemma_le_seq_len(r.0.offset as nat, 2);
    lemma_le_limits();
    assert(embeds(b, b, 0));
    lemma_split(x + y + n, ts, b, 0);
    lemma_split(x + y, n, b, 0);
    lemma_split(x, y, b, 0);
    lemma_le_at(b, 0, r.0.block as nat, 4);
    lemma_le_at(b, 4, r.0.offset as nat, 2);
    lemma_number_at(b, 6, r.1.len());
    lemma_terms_back(b, (6 + n.len()) as int, r.1);
}

/// A record reads back from its bytes, wherever they stand, and reading stops
/// right after them.
pub proof fn record_reads_back(b: Seq<u8>, pos: int, r: RecordView)
    requires
        writable(r),
        embeds(record_bytes(r), b, pos),
    ensures
        record_at(b, pos) == Some(r),
        stop_at(b, pos) == pos + record_bytes(r).len(),
        record_bytes(r).len() > 0,
{
    let body = body_bytes(r);
    let n = leb_bytes(body.len());
    lemma_split(n, body, b, pos);
    lemma_number_at(b, pos, body.len());
    lemma_leb_bytes_len(body.len());
    let p = pos + n.len();
    assert(b.subrange(p, p + body.len()) =~= body) by {
        assert forall|i: int| 0 <= i < body.len() implies b.subrange(p, p + body.len())[i] == body[i] by {
            assert(body[i] == b[p + i]);
        }
    }
    lemma_body_back(r);
}

/// Records written one after the other read back in the same order.
pub proof fn stream_reads_back(rs: Seq<RecordView>)
    requires
        forall|i: int| 0 <= i < rs.len() ==> writable(#[trigger] rs[i]),
    ensures
        records_from(stream_bytes(rs), 0) == Ok::<Seq<RecordView>, int>(rs),
{
    let b = stream_bytes(rs);
    lemma_stream_from(rs, b, rs.len() as int);
    assert(rs.skip(rs.len() as int) =~= Seq::empty());
    lemma_stream_tail(rs, 0);
    assert(rs.skip(0) =~= rs);
    assert(rs.take(0) =~= Seq::empty());
}

/// Where the first `n` records end.
proof fn lemma_stream_from(rs: Seq<RecordView>, b: Seq<u8>, n: int)
    requires
        0 <= n <= rs.len(),
        b == stream_bytes(rs),
    ensures
        embeds(stream_bytes(rs.take(n)), b, 0),
    decreases rs.len() - n,
{
    if n < rs.len() {
        lemma_stream_from(rs, b, n + 1);
        let t = rs.take(n + 1);
        assert(t.drop_last() =~= rs.take(n));
        lemma_split(stream_bytes(rs.take(n)), record_bytes(t.last()), b, 0);
    } else {
        assert(rs.take(n) =~= rs);
    }
}

proof fn lemma_stream_tail(rs: Seq<RecordView>, n: int)
    requires
        0 <= n <= rs.len(),
        forall|i: int| 0 <= i < rs.len() ==> writable(#[trigger] rs[i]),
    ensures
        records_from(stream_bytes(rs), stream_bytes(rs.take(n)).len() as int) == Ok::<Seq<RecordView>, int>(rs.skip(n)),
    decreases rs.len() - n,
{
    let b = stream_bytes(rs);
    let pos = stream_bytes(rs.take(n)).len() as int;
    if n < rs.len() {
        lemma_stream_tail(rs, n + 1);
        lemma_stream_at(rs, n);
        lemma_records_step(b, pos, rs[n], rs.skip(n + 1));
        assert(seq![rs[n]] + rs.skip(n + 1) =~= rs.skip(n));
    } else {
        assert(rs.take(n) =~= rs);
        assert(rs.skip(n) =~= Seq::empty());
    }
}

/// Record `n` stands where the first `n` end.
proof fn lemma_stream_at(rs: Seq<RecordView>, n: int)
    requires
        0 <= n < rs.len(),
        writable(rs[n]),
    ensures
        ({
            let (b, pos) = (stream_bytes(rs), stream_bytes(rs.take(n)).len() as int);
            &&& 0 <= pos < b.len()
            &&& record_at(b, pos) == Some(rs[n])
            &&& stop_at(b, pos) == stream_bytes(rs.take(n + 1)).len()
            &&& stop_at(b, pos) > pos
        }),
{
    let b = stream_bytes(rs);
    lemma_stream_from(rs, b, n + 1);
    let t = rs.take(n + 1);
    assert(t.drop_last() =~= rs.take(n));
    assert(t.last() == rs[n]);
    lemma_split(stream_bytes(rs.take(n)), record_bytes(rs[n]), b, 0);
    record_reads_back(b, stream_bytes(rs.take(n)).len() as int, rs[n]);
}

/// A record and what follows it.
proof fn lemma_records_step(b: Seq<u8>, pos: int, r: RecordView, rest: Seq<RecordView>)
    requires
        0 <= pos < b.len(),
        record_at(b, pos) == Some(r),
        stop_at(b, pos) > pos,
        records_from(b, stop_at(b, pos)) == Ok::<Seq<RecordView>, int>(rest),
    ensures
        records_from(b, pos) == Ok::<Seq<RecordView>, int>(seq![r] + rest),
{
}

} // verus!
