//! What an index keeps on its pages: the metapage, page chains, the pending
//! list, the shared registry and upkeep.

use std::collections::HashMap;
use std::sync::Arc;

use tin::backlog::{append_pages, append_pending, pending_after, rewrite_pending, BacklogReader, PageWrite, PendingPos};
use tin::bytes::Bytes;
use tin::chain::{
    blob_pages, bytes_to_words, fresh_page, freed_page, is_freed, liveness_writes, next_block, page_count, words_to_bytes, BlobReader,
    CHAIN_CAP, CHAIN_HEADER, WORDS_PER_PAGE,
};
use tin::load::{page_rows, worker_count, Closed};
use tin::maintain::{
    add_segment, can_flush, compact_locked, flush_due, flush_order, flush_segment, free_retired, install, merge_group, merge_segments, tier, worth_compacting, BulkDelete,
};
use tin::merge::can_merge;
use tin::meta::{Meta, MetaError, SegmentRef, INVALID_BLOCK, MAX_SEGMENTS};
use tin::pending::{decode_all, decode_one, encode, Record};
use tin::plan::Plan;
use tin::segment::{Segment, SegmentBuilder, SegmentError};
use tin::registry::{stays_private, LoadAction, Locator, PublishAction, Registry, Wanted, MAX_ENTRIES};
use tin::tid::Tid;

fn seg(id: u32, len: u64) -> SegmentRef {
    SegmentRef { id, first_block: 100 * id, n_blocks: 3, len, live_first: 100 * id + 50, live_blocks: 1 }
}

fn sample() -> Meta {
    let mut m = Meta::empty();
    m.generation = 77;
    m.next_segment_id = 9;
    m.pending_head = 4;
    m.pending_tail = 6;
    m.pending_tail_used = 123;
    m.pending_bytes = 9_000_000_000;
    m.pending_count = 41;
    m.segments = vec![seg(3, 1 << 40), seg(8, 7)];
    m.retired = vec![(10, 2), (INVALID_BLOCK, 0)];
    m
}

fn assert_same(a: &Meta, b: &Meta) {
    assert_eq!(format!("{:?}", a), format!("{:?}", b));
}

#[test]
fn metapage_reads_back() {
    let m = sample();
    let bytes = m.encode();
    assert_eq!(bytes.len(), 64 + 2 * 32 + 2 * 8);
    assert_same(&Meta::decode(&bytes).unwrap(), &m);
    assert_same(&m.copy(), &m);
    // Pages are longer than what is used of them.
    let mut page = bytes;
    page.resize(8168, 0);
    assert_same(&Meta::decode(&page).unwrap(), &m);
    let empty = Meta::empty();
    assert_same(&Meta::decode(&empty.encode()).unwrap(), &empty);
}

#[test]
fn metapage_errors() {
    let bytes = sample().encode();
    assert_eq!(Meta::decode(&[]).unwrap_err(), MetaError::Missing);
    assert_eq!(Meta::decode(&[0; 64]).unwrap_err(), MetaError::Missing);
    let mut other = bytes.clone();
    other[4] = 2;
    assert_eq!(Meta::decode(&other).unwrap_err(), MetaError::Version(2));
    for n in 8..bytes.len() {
        assert_eq!(Meta::decode(&bytes[..n]).unwrap_err(), MetaError::Truncated, "{n} bytes");
    }
    assert_eq!(MetaError::Missing.message(), "tin: index metapage is missing or corrupt");
    assert_eq!(MetaError::Truncated.message(), "tin: index metapage is truncated");
    assert_eq!(MetaError::Version(12).message(), "tin: index has on-disk format 12, this version needs 3; REINDEX it");
}

#[test]
fn metapage_room() {
    let mut m = Meta::empty();
    for i in 0..MAX_SEGMENTS {
        assert!(m.can_add_segment(), "{i}");
        add_segment(&mut m, seg(0, 1));
    }
    assert!(m.fits() && !m.can_add_segment());
    assert_eq!(m.next_segment_id as usize, MAX_SEGMENTS);
    assert_eq!(m.encode().len(), 64 + MAX_SEGMENTS * 32);
    m.retired = vec![(1, 1); 2];
    assert!(!m.fits());
}

fn record(block: u32, offset: u16, terms: &[&str]) -> Record {
    Record { tid: Tid::new(block, offset), terms: terms.iter().map(|t| t.to_string()).collect() }
}

fn stream(rs: &[Record]) -> Vec<u8> {
    rs.iter().flat_map(|r| encode(r.tid, &r.terms)).collect()
}

#[test]
fn pending_records_read_back() {
    let rs = vec![record(0, 1, &[]), record(70_000, 291, &["caf\u{e9}", "zebra"]), record(5, 2, &["a"])];
    let got = decode_all(&stream(&rs)).unwrap();
    assert_eq!(got.len(), 3);
    for (g, r) in got.iter().zip(&rs) {
        assert_eq!(g.tid, r.tid);
        assert_eq!(g.terms, r.terms);
    }
    assert!(decode_all(&[]).unwrap().is_empty());
}

#[test]
fn pending_corruption_is_located() {
    let mut b = encode(Tid::new(1, 1), &["ab".to_string()]);
    let first = b.len();
    // Behind what was read of the record: its length, or all of it.
    assert_eq!(decode_all(&b[..first - 1]).unwrap_err(), 1);
    b.extend([1, 2, 3]);
    assert_eq!(decode_all(&b).unwrap_err(), first + 2);
}

#[test]
fn pending_records_answer_plans() {
    let r = record(1, 1, &["blue", "red"]);
    let term = |t: &str| Plan::Term(t.to_string());
    assert!(r.matches(&term("red")) && !r.matches(&term("green")));
    assert!(r.matches(&Plan::And(vec![term("blue"), term("red")])));
    assert!(!r.matches(&Plan::AndNot(Box::new(term("blue")), Box::new(term("red")))));
    assert!(r.matches(&Plan::Prefix("bl".to_string())));
}

#[test]
fn chains_read_back() {
    for len in [0, 1, CHAIN_CAP, CHAIN_CAP + 1, 3 * CHAIN_CAP, 3 * CHAIN_CAP + 17] {
        let bytes: Vec<u8> = (0..len).map(|i| (i * 31 % 251) as u8).collect();
        let n = page_count(len);
        assert_eq!(n, len.div_ceil(CHAIN_CAP));
        let blocks: Vec<u32> = (0..n as u32).map(|i| 7 + 5 * i).collect();
        let pages = blob_pages(&bytes, &blocks);
        assert_eq!(pages.len(), n);
        let at: HashMap<u32, &Vec<u8>> = blocks.iter().copied().zip(&pages).collect();
        let mut reader = BlobReader::new(blocks.first().copied().unwrap_or(INVALID_BLOCK), n as u32);
        while reader.left > 0 {
            let page = at[&reader.block];
            reader.take(page);
        }
        assert_eq!(reader.finish(len as u64).unwrap(), bytes);
    }
    let page = &blob_pages(&[1, 2, 3], &[9])[0];
    assert_eq!(next_block(page), INVALID_BLOCK);
    assert_eq!(&page[CHAIN_HEADER..], &[1, 2, 3]);
}

#[test]
fn short_chains_are_reported() {
    let pages = blob_pages(&[1, 2, 3], &[9]);
    let mut reader = BlobReader::new(9, 1);
    reader.take(&pages[0]);
    assert_eq!(reader.finish(4).unwrap_err(), 3);
}

#[test]
fn freed_pages_are_told_apart() {
    assert!(is_freed(&freed_page()));
    assert!(!is_freed(&fresh_page()));
    assert!(!is_freed(&blob_pages(&[0; 100], &[1])[0]));
    assert_eq!(next_block(&fresh_page()), INVALID_BLOCK);
}

#[test]
fn liveness_words() {
    let words: Vec<u64> = vec![0, u64::MAX, 0x0102_0304_0506_0708];
    let bytes = words_to_bytes(&words);
    assert_eq!(bytes[16..], [8, 7, 6, 5, 4, 3, 2, 1]);
    assert_eq!(bytes_to_words(&bytes), words);
    let old = vec![1u64; 2 * WORDS_PER_PAGE + 5];
    let mut new = old.clone();
    assert!(liveness_writes(&old, &new).iter().all(|w| w.is_none()));
    new[WORDS_PER_PAGE] = 0;
    let writes = liveness_writes(&old, &new);
    assert_eq!(writes.iter().map(|w| w.is_some()).collect::<Vec<_>>(), [false, true, false]);
    assert_eq!(writes[1].as_ref().unwrap()[..8], [0; 8]);
    assert_eq!(writes[1].as_ref().unwrap().len(), 8 * WORDS_PER_PAGE);
}

/// Pages in memory.
#[derive(Default)]
struct Pages(HashMap<u32, Vec<u8>>);

impl Pages {
    fn apply(&mut self, w: PageWrite) {
        match w {
            PageWrite::Fresh(b) => {
                self.0.insert(b, fresh_page());
            }
            PageWrite::Link(a, b) => {
                self.0.insert(b, fresh_page());
                self.0.get_mut(&a).unwrap()[..4].copy_from_slice(&b.to_le_bytes());
            }
            PageWrite::Put(b, at, bytes) => {
                let p = self.0.get_mut(&b).unwrap();
                if p.len() < at + bytes.len() {
                    p.resize(at + bytes.len(), 0);
                }
                p[at..at + bytes.len()].copy_from_slice(&bytes);
            }
        }
    }

    fn read(&self, meta: &Meta, from: PendingPos) -> (Vec<u8>, PendingPos) {
        let mut r = BacklogReader::new(meta, from);
        while r.more(meta) {
            let block = r.pos.block;
            r.take(meta, &self.0[&block]);
        }
        (r.out, r.pos)
    }
}

#[test]
fn the_backlog_follows_appends() {
    let mut meta = Meta::empty();
    let mut pages = Pages::default();
    let mut all: Vec<u8> = Vec::new();
    let mut pos = PendingPos::default();
    let mut read: Vec<u8> = Vec::new();
    let mut next = 0;
    for i in 0..60usize {
        let rec: Vec<u8> = (0..i * 97 % 20_000 + 1 + if i % 7 == 0 { CHAIN_CAP } else { 0 }).map(|k| (k + i) as u8).collect();
        let n = append_pages(&meta, rec.len());
        let fresh: Vec<u32> = (next..next + n as u32).collect();
        next += n as u32;
        for w in append_pending(&mut meta, &rec, &fresh) {
            pages.apply(w);
        }
        all.extend(&rec);
        assert_eq!(meta.pending_bytes, all.len() as u64);
        assert_eq!(meta.pending_count, i as u64 + 1);
        // From the start, and from where the last reader stopped.
        assert_eq!(pages.read(&meta, PendingPos::start(&meta)).0, all);
        let (more, p) = pages.read(&meta, pos);
        read.extend(more);
        pos = p;
        assert_eq!(read, all);
    }
    let mut chain = vec![meta.pending_head];
    while let Some(b) = pending_after(&meta, *chain.last().unwrap(), &pages.0[chain.last().unwrap()]) {
        chain.push(b);
    }
    assert_eq!(chain, (0..next).collect::<Vec<_>>());
    assert_eq!(meta.pending_tail, next - 1);
}

#[test]
fn the_backlog_is_rewritten() {
    let mut meta = sample();
    let stream: Vec<u8> = (0..2 * CHAIN_CAP + 9).map(|i| i as u8).collect();
    let blocks = [31, 30, 32];
    let mut pages = Pages::default();
    for (b, p) in blocks.iter().zip(rewrite_pending(&mut meta, &stream, 5, &blocks)) {
        pages.0.insert(*b, p);
    }
    assert_eq!((meta.pending_head, meta.pending_tail, meta.pending_tail_used), (31, 32, 9));
    assert_eq!((meta.pending_bytes, meta.pending_count), (stream.len() as u64, 5));
    assert_eq!(pages.read(&meta, PendingPos::start(&meta)).0, stream);
    assert!(rewrite_pending(&mut meta, &[], 0, &[]).is_empty());
    assert_eq!((meta.pending_head, meta.pending_tail, meta.pending_tail_used), (INVALID_BLOCK, INVALID_BLOCK, 0));
    assert_eq!((meta.pending_bytes, meta.pending_count, meta.generation), (0, 0, 77));
}

const LOC: Locator = Locator { spc: 1, db: 2, rel: 3 };

fn want(head: u32, id: u32, len: u64) -> Wanted {
    Wanted { loc: LOC, head, id, len }
}

fn load(r: &mut Registry, w: &Wanted, cap: u64, handle: u32) -> Vec<u32> {
    match r.shared_bytes(w, cap) {
        LoadAction::Create(unpin) => {
            assert!(matches!(r.created(w, Some(handle)), LoadAction::Done));
            unpin
        }
        other => panic!("{other:?}"),
    }
}

#[test]
fn shared_segments_are_found_again() {
    let mut r = Registry::new();
    let w = want(10, 1, 40);
    assert!(load(&mut r, &w, 100, 77).is_empty());
    assert_eq!(r.stats(), (1, 40));
    assert!(matches!(r.shared_bytes(&w, 100), LoadAction::Attach(77)));
    assert!(matches!(r.attached(&w, 100, true), LoadAction::Done));
    assert!(matches!(r.publish(&w, 100), PublishAction::Present));
    // Another segment at the same block: the old one is stale.
    let newer = want(10, 2, 60);
    assert_eq!(load(&mut r, &newer, 100, 78), [77]);
    assert_eq!(r.stats(), (1, 60));
    // Not mappable: dropped and created afresh.
    assert!(matches!(r.shared_bytes(&newer, 100), LoadAction::Attach(78)));
    assert!(matches!(r.attached(&newer, 100, false), LoadAction::Create(v) if v == [78]));
    assert!(matches!(r.created(&newer, None), LoadAction::Private(v) if v.is_empty()));
    assert_eq!(r.stats(), (0, 0));
    assert!(stays_private(101, 100) && stays_private(1, 0) && !stays_private(100, 100));
}

#[test]
fn the_least_recently_used_segment_goes_first() {
    let mut r = Registry::new();
    let (a, b, c) = (want(1, 1, 40), want(2, 2, 40), want(3, 3, 40));
    load(&mut r, &a, 100, 1);
    load(&mut r, &b, 100, 2);
    r.shared_bytes(&a, 100);
    r.attached(&a, 100, true);
    assert_eq!(load(&mut r, &c, 100, 3), [2]);
    assert_eq!(r.stats(), (2, 80));
    match r.publish(&want(4, 4, 100), 100) {
        PublishAction::Create(unpin) => assert_eq!(unpin, [1, 3]),
        other => panic!("{other:?}"),
    }
    assert_eq!(r.stats(), (0, 0));
}

#[test]
fn forgotten_segments_are_unpinned() {
    let mut r = Registry::new();
    for i in 0..4 {
        load(&mut r, &want(i, i, 10), 100, 50 + i);
    }
    assert_eq!(r.forget(LOC, &[3, 1, 9]), [51, 53]);
    assert_eq!(r.stats(), (2, 20));
    assert!(r.forget(Locator { spc: 1, db: 2, rel: 4 }, &[0]).is_empty());
    assert!(r.forget(LOC, &[1]).is_empty());
}

#[test]
fn a_full_registry_loads_privately() {
    let mut r = Registry::new();
    for i in 0..MAX_ENTRIES as u32 {
        load(&mut r, &want(i, i, 1), u64::MAX, i);
    }
    assert!(matches!(r.shared_bytes(&want(5000, 1, 1), u64::MAX), LoadAction::Private(v) if v.is_empty()));
    assert!(matches!(r.publish(&want(5000, 1, 1), u64::MAX), PublishAction::Skip(v) if v.is_empty()));
    assert_eq!(r.stats(), (1024, 1024));
}

#[test]
fn merge_tiers() {
    assert_eq!([0, 65_536, 65_537, 524_288, 524_289, 1 << 26].map(tier), [0, 0, 1, 1, 2, 4]);
    let small: Vec<SegmentRef> = (0..3).map(|i| seg(i, 10)).collect();
    assert!(merge_group(&small).is_none());
    let mut mixed = vec![seg(9, 1 << 20), seg(8, 100_000), seg(7, 100_001), seg(6, 100_002), seg(5, 99_999)];
    mixed.extend(small);
    assert_eq!(merge_group(&mixed).unwrap().iter().map(|s| s.id).collect::<Vec<_>>(), [8, 7, 6, 5]);
    mixed.push(seg(4, 65_536));
    mixed.push(seg(3, 65_536));
    assert_eq!(merge_group(&mixed).unwrap().iter().map(|s| s.id).collect::<Vec<_>>(), [0, 1, 2, 4]);
    // Large ones are left alone.
    assert!(merge_group(&(0..9).map(|i| seg(i, (1 << 26) + 1)).collect()).is_none());
}

#[test]
fn merging_and_installing() {
    let mut next = Meta::empty();
    for len in [10, 20, 30] {
        add_segment(&mut next, seg(0, len));
    }
    let group = vec![next.segments[0], next.segments[2]];
    merge_segments(&mut next, &group, Some(seg(44, 40)));
    assert_eq!(next.segments.iter().map(|s| (s.id, s.len)).collect::<Vec<_>>(), [(1, 20), (3, 40)]);
    assert_eq!(next.retired, [(0, 3), (50, 1), (0, 3), (50, 1)]);
    assert_eq!(next.next_segment_id, 4);
    let mut current = Meta::empty();
    current.generation = 6;
    current.pending_bytes = 12;
    assert!(install(&current, 5, &next).is_none());
    let m = install(&current, 6, &next).unwrap();
    assert_eq!((m.generation, m.pending_bytes, m.segments.len()), (7, 12, 2));
    let mut m = m;
    assert_eq!(free_retired(&mut m).len(), 4);
    assert!(m.retired.is_empty() && m.segments.len() == 2);
}

#[test]
fn compaction() {
    let segs = |lens: &[u64]| lens.iter().enumerate().map(|(i, l)| seg(i as u32, *l)).collect::<Vec<_>>();
    assert!(!worth_compacting(&segs(&[100]), u64::MAX));
    assert!(!worth_compacting(&segs(&[100, 25]), u64::MAX));
    assert!(worth_compacting(&segs(&[100, 26]), u64::MAX));
    assert!(!worth_compacting(&segs(&[100, 26]), 251));
    assert!(worth_compacting(&segs(&[100, 26]), 252));
    assert!(worth_compacting(&segs(&[[1000].as_slice(), &[1; 12]].concat()), u64::MAX));
    assert!(!worth_compacting(&segs(&[[1000].as_slice(), &[1; 11]].concat()), u64::MAX));

    let mut meta = Meta::empty();
    for len in [10, 20] {
        add_segment(&mut meta, seg(0, len));
    }
    let snap = meta.segments.clone();
    add_segment(&mut meta, seg(0, 5));
    let m = compact_locked(&meta, &snap, Some(seg(0, 30))).unwrap();
    assert_eq!(m.segments.iter().map(|s| (s.id, s.len)).collect::<Vec<_>>(), [(2, 5), (3, 30)]);
    assert_eq!(m.generation, meta.generation + 1);
    let m = compact_locked(&meta, &snap, None).unwrap();
    assert_eq!(m.segments.iter().map(|s| s.id).collect::<Vec<_>>(), [2]);
    meta.segments.remove(0);
    assert!(compact_locked(&meta, &snap, Some(seg(0, 30))).is_none());
}

#[test]
fn compaction_that_overflows_is_given_up() {
    let mut meta = Meta::empty();
    for _ in 0..MAX_SEGMENTS {
        add_segment(&mut meta, seg(0, 1));
    }
    meta.retired = vec![(1, 1); 900];
    let snap = meta.segments[..50].to_vec();
    assert!(compact_locked(&meta, &snap, None).is_none());
}

#[test]
fn flushing() {
    let mut meta = Meta::empty();
    meta.pending_bytes = 1024;
    assert!(!flush_due(&meta, 1) && flush_due(&meta, 0));
    meta.pending_bytes = 1025;
    assert!(flush_due(&meta, 1));
    let rs = vec![record(2, 1, &["a"]), record(1, 9, &["b"]), record(2, 1, &["c"]), record(1, 2, &["d"])];
    let got: Vec<(Tid, String)> = flush_order(rs).into_iter().map(|r| (r.tid, r.terms[0].clone())).collect();
    assert_eq!(got, [(Tid::new(1, 2), "d".into()), (Tid::new(1, 9), "b".into()), (Tid::new(2, 1), "a".into())]);
}

#[test]
fn vacuum_clears_dead_tuples() {
    let mut v = BulkDelete::new();
    let live = v.vacuum_segment(7, &[0b1011, 1], &[0, 1, 3, 64], &[false, true, false, true]);
    assert_eq!(live, [0b1001, 0]);
    assert_eq!((v.removed, v.remaining), (2, 2));
    let mut meta = Meta::empty();
    meta.segments = vec![seg(6, 1), seg(7, 1), seg(8, 1)];
    assert_eq!(v.second_pass(&meta).iter().map(|s| s.id).collect::<Vec<_>>(), [6, 8]);
    let rs = vec![record(1, 1, &["a"]), record(1, 2, &["b"])];
    let none = v.vacuum_pending(&rs, &[false, false]);
    assert!(none.rewrite.is_none() && none.count == 2);
    let some = v.vacuum_pending(&rs, &[true, false]);
    assert_eq!(some.rewrite.unwrap(), stream(&rs[1..]));
    assert_eq!(some.count, 1);
    assert_eq!((v.removed, v.remaining), (3, 5));
}

#[test]
fn bytes_are_windows_on_one_buffer() {
    let b = Bytes::<Vec<u8>>::from_vec(vec![1, 2, 3, 4, 5]);
    assert_eq!(b.len(), 5);
    let s = b.slice(1..4);
    assert_eq!(s.as_ref(), &[2, 3, 4]);
    assert_eq!(s.slice(1..1).len(), 0);
    assert_eq!(s.slice(2..3).as_ref(), &[4]);
    assert_eq!(s.copy().as_ref(), &[2, 3, 4]);
    let shared = Arc::new(vec![9u8, 8]);
    assert_eq!(Bytes::new(shared.clone()).as_ref(), &[9, 8]);
}

#[test]
fn flushed_records_are_searchable() {
    let rs = vec![record(2, 1, &["blue", "red"]), record(1, 9, &["red"]), record(2, 1, &["green"])];
    let seg = flush_segment(rs, false);
    assert_eq!(seg.meta().first_block, 1);
    assert_eq!(seg.search(&Plan::Term("red".to_string())), [Tid::new(1, 9), Tid::new(2, 1)]);
    assert!(seg.search(&Plan::Term("green".to_string())).is_empty());
}

#[test]
fn vacuumed_tuples_are_no_longer_found() {
    let rs = vec![record(1, 1, &["a"]), record(1, 3, &["a"]), record(4, 2, &["a"])];
    let seg = flush_segment(rs, false);
    let live = vec![u64::MAX; seg.live_words()];
    let listed = seg.for_each_set_tid(&live);
    assert!(listed.iter().all(|(b, t)| seg.tid_bit(*t) == Some(*b)));
    let bits: Vec<usize> = listed.iter().map(|(b, _)| *b as usize).collect();
    let dead: Vec<bool> = listed.iter().map(|(_, t)| *t == Tid::new(1, 3)).collect();
    let mut v = BulkDelete::new();
    let live = v.vacuum_segment(0, &live, &bits, &dead);
    assert_eq!(seg.search_live(&Plan::Term("a".to_string()), Some(&live)), [Tid::new(1, 1), Tid::new(4, 2)]);
    assert_eq!(v.removed, 1);
    assert_eq!(seg.tid_bit(Tid::new(1, 4)), None);
    assert_eq!(seg.tid_bit(Tid::new(0, 1)), None);
}

#[test]
fn page_rows_come_in_line_pointer_order() {
    let rows = vec![(7, "c".to_string()), (1, "a".to_string()), (3, "b".to_string())];
    let got = page_rows(9, rows);
    let want = [(Tid::new(9, 1), "a".to_string()), (Tid::new(9, 3), "b".to_string()), (Tid::new(9, 7), "c".to_string())];
    assert_eq!(got, want);
    assert!(page_rows(9, vec![]).is_empty());
}

#[test]
fn build_threads() {
    let mb = 1u64 << 20;
    assert_eq!(worker_count(2, 8, 64 * mb), 1);
    assert_eq!(worker_count(2, 8, 1024 * mb), 2);
    assert_eq!(worker_count(20, 8, 1024 * mb), 8);
    assert_eq!(worker_count(-1, 8, 1024 * mb), 0);
    assert_eq!(worker_count(2, 8, 16 * mb), 0);
}

fn one_page(block: u32, words: &[&str]) -> Segment {
    let mut b = SegmentBuilder::open_ended(block);
    for (i, w) in words.iter().enumerate() {
        b.add(Tid::new(block, i as u16 + 1), w);
    }
    b.finish()
}

#[test]
fn closed_segments_are_held_while_they_fit() {
    let size = one_page(0, &["x y"]).size_bytes() as u64;
    // A serial build spills once more than half of the budget is held.
    let mut c = Closed::new(5 * size, 0, false);
    assert!(c.take_segment(one_page(0, &["x y"])).is_empty());
    assert!(c.take_segment(one_page(1, &["x y"])).is_empty());
    assert_eq!(c.held_bytes, 2 * size);
    assert_eq!(c.take_segment(one_page(2, &["x y"])).len(), 3);
    assert!(c.spilled && c.held.is_empty());
    assert_eq!(c.take_segment(one_page(3, &["x y"])).len(), 1);
    assert!(c.finish().is_empty());
    // A parallel one merges what is held beyond a quarter.
    let mut c = Closed::new(9 * size, 2, false);
    assert!(c.take_segment(one_page(0, &["x y"])).is_empty());
    assert!(c.take_segment(one_page(1, &["x z"])).is_empty());
    let out = c.take_segment(one_page(2, &["x y"]));
    assert_eq!(out.len(), 1);
    assert_eq!(out[0].search(&Plan::Term("y".to_string())), [Tid::new(0, 1), Tid::new(2, 1)]);
    assert_eq!(out[0].count(&Plan::Term("x".to_string())), 3);
    assert!(!c.spilled);
    // One held segment is written as it is.
    assert!(c.take_segment(one_page(7, &["x y"])).is_empty());
    let out = c.finish();
    assert_eq!((out.len(), out[0].meta().first_block), (1, 7));
}

#[test]
fn broken_segments_are_refused() {
    let bytes = one_page(3, &["x y", "y z"]).to_bytes();
    let err = |b: &[u8]| Segment::from_bytes(b).err().unwrap();
    assert!(Segment::from_bytes(&bytes).is_ok());
    for n in [0, 3, 7, 20, 47, bytes.len() - 1] {
        assert_eq!(err(&bytes[..n]), SegmentError::Truncated, "{n} bytes");
    }
    let changed = |at: usize, v: u8| {
        let mut b = bytes.clone();
        b[at] = v;
        b
    };
    assert_eq!(err(&changed(0, b'?')), SegmentError::BadMagic);
    assert_eq!(err(&changed(4, 99)), SegmentError::Version(99));
    assert_eq!(err(&[bytes.as_slice(), &[0]].concat()), SegmentError::TrailingBytes);
    // One word of indexed tuples stands behind the padding, and whether grams
    // are stored.
    assert_eq!(err(&changed(bytes.len() - 10, 1)), SegmentError::NoPadding);
    assert_eq!(err(&changed(bytes.len() - 1, 2)), SegmentError::BadFlag);
    // More widths than twice as many bytes can be counted.
    let with_count = |n: u64| {
        let mut b = bytes.clone();
        b[40..48].copy_from_slice(&n.to_le_bytes());
        b
    };
    assert_eq!(err(&with_count(u64::MAX)), SegmentError::BadDirectory);
    assert_eq!(err(&with_count(u64::MAX / 2 + 1)), SegmentError::BadDirectory);
    // As many as can be counted, but not there.
    assert_eq!(err(&with_count(u64::MAX / 2)), SegmentError::Truncated);
    assert_eq!(err(&with_count(u32::MAX as u64)), SegmentError::Truncated);
    // The last page may be the last block there is, but no later one.
    let at_block = |b: &[u8], first: u32| {
        let mut b = b.to_vec();
        b[8..12].copy_from_slice(&first.to_le_bytes());
        b
    };
    assert!(Segment::from_bytes(&at_block(&bytes, u32::MAX)).is_ok());
    let mut two = SegmentBuilder::open_ended(3);
    two.add(Tid::new(3, 1), "x");
    two.add(Tid::new(4, 1), "y");
    let two = two.finish().to_bytes();
    assert!(Segment::from_bytes(&at_block(&two, u32::MAX - 1)).is_ok());
    assert_eq!(err(&at_block(&two, u32::MAX)), SegmentError::BadDirectory);
    // The dictionary's version comes first in it, behind the one width.
    let at = 48 + 2 + 8;
    match err(&changed(at, 0xEE)) {
        SegmentError::Dictionary(m) => assert!(!m.is_empty()),
        other => panic!("{other:?}"),
    }
    assert_eq!(SegmentError::Truncated.message(), "truncated");
    assert_eq!(SegmentError::BadMagic.message(), "bad magic");
    assert_eq!(SegmentError::Version(99).message(), "unsupported format version 99");
    assert_eq!(SegmentError::BadDirectory.message(), "bad page directory length");
    assert_eq!(SegmentError::BadFlag.message(), "bad grams flag");
    assert_eq!(SegmentError::NoPadding.message(), "postings area missing tail padding");
    assert_eq!(SegmentError::TrailingBytes.message(), "trailing bytes");
    assert_eq!(SegmentError::Dictionary("no".to_string()).message(), "no");
}

#[test]
fn tuples_without_terms_are_indexed() {
    let seg = one_page(3, &["x y", "", "z", "..."]);
    assert_eq!(seg.meta().doc_count, 4);
    assert_eq!(seg.docs(), [0b1111]);
    let set: Vec<Tid> = seg.for_each_set_tid(seg.docs()).into_iter().map(|(_, t)| t).collect();
    assert_eq!(set, [Tid::new(3, 1), Tid::new(3, 2), Tid::new(3, 3), Tid::new(3, 4)]);
    let back = Segment::from_bytes(&seg.to_bytes()).unwrap();
    assert_eq!(back.docs(), seg.docs());
    // A merge keeps them while they live.
    let other = one_page(9, &["..."]);
    let m = Segment::merge(&vec![(&seg, Some(&[0b0011u64][..])), (&other, None)]).unwrap();
    assert_eq!(m.meta().doc_count, 3);
    let kept: Vec<Tid> = m.for_each_set_tid(m.docs()).into_iter().map(|(_, t)| t).collect();
    assert_eq!(kept, [Tid::new(3, 1), Tid::new(3, 2), Tid::new(9, 1)]);
    assert_eq!(m.search(&Plan::Term("z".to_string())), []);
    assert_eq!(m.search(&Plan::Term("y".to_string())), [Tid::new(3, 1)]);
    let m = Segment::merge(&vec![(&other, None)]).unwrap();
    assert_eq!((m.meta().doc_count, m.meta().term_count), (1, 0));
    assert!(Segment::merge(&vec![(&other, Some(&[0u64][..]))]).is_none());
}

#[test]
fn what_cannot_be_flushed_or_merged_is_told_first() {
    let rec = |block: u32, offset: u16| Record { tid: Tid { block, offset }, terms: vec!["x".to_string()] };
    assert!(can_flush(&vec![rec(0, 1), rec(9, 291)], false));
    assert!(!can_flush(&vec![], false));
    assert!(!can_flush(&vec![rec(0, 1), rec(u32::MAX, 1)], false));
    assert!(!can_flush(&vec![rec(0, 0)], false));
    assert!(!can_flush(&vec![rec(0, 292)], false));
    // With grams, a term must not look like one, nor be too long for them.
    let with = |t: &str| vec![Record { tid: Tid::new(0, 1), terms: vec![t.to_string()] }];
    assert!(can_flush(&with("abcd"), true));
    assert!(can_flush(&with("\u{1}abcd"), false));
    assert!(!can_flush(&with("\u{1}abcd"), true));
    assert!(can_flush(&with(&"x".repeat(64)), true));
    assert!(!can_flush(&with(&"x".repeat(65)), true));
    let (a, b) = (one_page(3, &["x y", "..."]), one_page(4, &["z"]));
    assert!(can_merge(&vec![(&a, None), (&b, None)]));
}

#[test]
fn grams_are_stored_and_merged() {
    let gram_page = |block: u32, words: &[&str], grams: bool| {
        let mut b = SegmentBuilder::open_ended(block).with_grams(grams);
        for (i, w) in words.iter().enumerate() {
            b.add(Tid::new(block, i as u16 + 1), w);
        }
        b.finish()
    };
    let seg = gram_page(3, &["abcde xabcx", "abc"], true);
    // Each term's grams of four characters, the last with the end marker.
    for (g, n) in [("\u{1}abcd", 1), ("\u{1}bcde", 1), ("\u{1}cde\u{2}", 1), ("\u{1}xabc", 1), ("\u{1}abcx", 1), ("\u{1}bcx\u{2}", 1), ("\u{1}abc\u{2}", 1)] {
        assert_eq!(seg.term(g).unwrap().doc_count(), n, "{g:?}");
    }
    assert!(seg.term("\u{1}abc").is_none());
    // Grams are no terms of the tuples.
    assert_eq!((seg.meta().grams, seg.meta().term_count, seg.meta().posting_count), (true, 10, 3));
    assert_eq!(seg.for_each_term(), [("abc".to_string(), 1), ("abcde".to_string(), 1), ("xabcx".to_string(), 1)]);
    assert!(seg.search(&Plan::Term("\u{1}abcd".to_string())).is_empty());
    assert!(seg.search(&Plan::Fuzzy("abcd\u{2}".to_string(), 0)).is_empty());
    // Three characters are exact, and two scan the dictionary.
    let all = [Tid::new(3, 1), Tid::new(3, 2)];
    assert_eq!(seg.search(&Plan::Fragment("abc".to_string())), all);
    assert_eq!(seg.search(&Plan::Fragment("bcx".to_string())), [all[0]]);
    assert_eq!(seg.search(&Plan::Fragment("bc".to_string())), all);
    assert!(seg.search(&Plan::Fragment("bcd\u{2}".to_string())).is_empty());
    // Four and more are candidates, except under a negation.
    let split = gram_page(5, &["a1234b c2345d", "x123456"], true);
    let frag = Plan::Fragment("12345".to_string());
    assert_eq!(split.search(&frag), [Tid::new(5, 1), Tid::new(5, 2)]);
    let not = Plan::AndNot(Box::new(Plan::Prefix("".to_string())), Box::new(frag));
    assert_eq!(split.search(&not), [Tid::new(5, 1)]);
    // The flag and the grams read back.
    let back = Segment::from_bytes(&seg.to_bytes()).unwrap();
    assert_eq!((back.meta(), back.to_bytes()), (seg.meta(), seg.to_bytes()));
    // A merge keeps grams if all have them.
    let both = Segment::merge(&vec![(&seg, None), (&split, None)]).unwrap();
    assert!(both.meta().grams);
    assert_eq!(both.meta().posting_count, 6);
    assert_eq!(both.term("\u{1}1234").unwrap().doc_count(), 2);
    assert_eq!((both.meta().first_block, both.meta().end_block), (3, 6));
    let plain = gram_page(9, &["12345"], false);
    let mixed = Segment::merge(&vec![(&split, None), (&plain, None)]).unwrap();
    assert!(!mixed.meta().grams && mixed.term("\u{1}1234").is_none());
    assert_eq!(mixed.search(&Plan::Fragment("12345".to_string())), [Tid::new(5, 2), Tid::new(9, 1)]);
}

#[test]
fn dense_grams_are_left_out() {
    // `aaaa` is in every row, `aaab` in one of them: looking up `aaaab` leaves
    // the dense gram out, so a row with `aaab` alone is a candidate.
    let mut b = SegmentBuilder::open_ended(0).with_grams(true);
    b.add(Tid::new(0, 1), "xaaab");
    for i in 0..40u16 {
        b.add(Tid::new(1, i + 1), "aaaax");
    }
    let seg = b.finish();
    let frag = Plan::Fragment("aaaab".to_string());
    assert!(frag.needs_recheck());
    assert_eq!(seg.search(&frag), [Tid::new(0, 1)]);
}

#[test]
fn records_are_read_one_by_one() {
    let first = encode(Tid::new(1, 2), &["ab".to_string(), "cd".to_string()]);
    let second = encode(Tid::new(7, 9), &[]);
    let b = [first.as_slice(), second.as_slice()].concat();
    let mut pos = 0;
    let r = decode_one(&b, &mut pos).unwrap();
    assert_eq!((r.tid, r.terms), (Tid::new(1, 2), vec!["ab".to_string(), "cd".to_string()]));
    assert_eq!(pos, first.len());
    let r = decode_one(&b, &mut pos).unwrap();
    assert_eq!((r.tid, r.terms.len()), (Tid::new(7, 9), 0));
    assert_eq!(pos, b.len());
    // A cut record is none.
    let mut pos = 0;
    assert!(decode_one(&b[..first.len() - 1], &mut pos).is_none());
}

#[test]
fn pending_terms_must_be_utf8() {
    let good = encode(Tid::new(1, 1), &["ab".to_string()]);
    let at = good.len() - 1;
    let mut bad = good.clone();
    bad[at] = 0xFF;
    assert!(decode_all(&good).is_ok());
    assert_eq!(decode_all(&bad).unwrap_err(), good.len());
    let mut zero = good;
    zero[5] = 0;
    assert!(decode_all(&zero).is_err());
}
