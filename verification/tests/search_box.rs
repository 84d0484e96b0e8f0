//! Search-box queries and ranked retrieval.

use tin::plan::SortedTerms;
use tin::rank::{PendingDoc, Ranked, Sources, NO_TIER};
use tin::search::{SearchBox, MAX_TIER};
use tin::segment::{Segment, SegmentBuilder};
use tin::plan::Plan;
use tin::tid::Tid;
use tin::tokenize::Analyzer;

fn sb(q: &str) -> SearchBox {
    SearchBox::parse(q, &mut Analyzer::new())
}

#[test]
fn tiers() {
    let q = sb("MSKU6018200");
    let t = |doc: &str| q.tier_of_text(doc, &mut Analyzer::new());
    assert_eq!(t("msku6018200 123"), Some(0));
    assert_eq!(t("msku60182001"), Some(1));
    assert_eq!(t("xmsku6018200"), Some(2));
    assert_eq!(t("msku6012800"), Some(3)); // swap
    assert_eq!(t("msku6012801"), Some(4));
    assert_eq!(t("cmau1234567"), None);
    // Every term must match; the worst one decides.
    let q2 = sb("msku60 810698640");
    assert_eq!(q2.tier_of_text("msku6018200 810698640", &mut Analyzer::new()), Some(1));
    assert_eq!(q2.tier_of_text("msku6018200", &mut Analyzer::new()), None);
    // Short terms don't get fuzzy tiers.
    assert!(!sb("ab").has_tier(2) && sb("abc").has_tier(2) && !sb("abc").has_tier(3));
    assert_eq!(sb("").tier_of_text("x", &mut Analyzer::new()), None);
    // A typo budget drops the typo tiers beyond it.
    let q1 = sb("MSKU6018200").with_max_typos(1);
    assert_eq!(q1.tier_of_text("msku6012800", &mut Analyzer::new()), Some(3));
    assert_eq!(q1.tier_of_text("msku6012801", &mut Analyzer::new()), None);
    assert!(q1.has_tier(3) && !q1.has_tier(4) && !sb("MSKU6018200").with_max_typos(0).has_tier(3));
}

#[test]
fn plans_agree_with_tiers() {
    let docs =
        ["msku6018200 810698640", "msku60182001", "xmsku6018200", "msku6012800", "msku6012801", "a b"];
    for (q, typos) in [
        ("msku6018200", 2),
        ("msku60", 2),
        ("018200", 2),
        ("msku6018200 81069864", 2),
        ("b", 2),
        ("msku6018200", 1),
        ("msku6018200", 0),
    ] {
        let q = sb(q).with_max_typos(typos);
        for d in docs {
            let terms = Analyzer::new().unique_terms(d);
            let tier = q.tier_of_terms(&terms);
            for l in 0..=MAX_TIER {
                let in_plan = q.plan(l).matches(&SortedTerms(&terms));
                assert_eq!(in_plan, tier.is_some_and(|t| t <= l), "{q:?} {d} tier ≤ {l}");
            }
        }
    }
}

fn segment(docs: &[(Tid, &str)]) -> Segment {
    let mut b = SegmentBuilder::open_ended(0);
    for (tid, text) in docs {
        b.add(*tid, text);
    }
    b.finish()
}

fn drain(r: &mut Ranked, src: &Sources<'_>) -> Vec<(u32, u16, u8)> {
    let mut out = Vec::new();
    while let Some(h) = r.next(src) {
        out.push((h.tid.block, h.tid.offset, h.tier));
    }
    out
}

#[test]
fn matches_come_out_tier_by_tier() {
    let seg = segment(&[
        (Tid::new(0, 1), "msku6018201"),
        (Tid::new(0, 2), "xmsku6018200"),
        (Tid::new(0, 3), "msku6018200"),
        (Tid::new(1, 1), "msku60182001"),
        (Tid::new(1, 2), "cmau1234567"),
        (Tid::new(1, 3), "msku6018200 msku60182001"),
    ]);
    let pending = [PendingDoc { tid: Tid::new(9, 1), terms: vec!["msku6018200".to_owned()] }];
    let src = Sources { segments: vec![(&seg, None)], pending: &pending };
    let mut r = Ranked::new(sb("MSKU6018200"), None);
    assert_eq!(
        drain(&mut r, &src),
        [(0, 3, 0), (1, 3, 0), (9, 1, 0), (1, 1, 1), (0, 2, 2), (0, 1, 3)]
    );
    assert!(r.next(&src).is_none());
}

#[test]
fn filtered_rows_come_last() {
    let seg = segment(&[
        (Tid::new(0, 1), "beer craft"),
        (Tid::new(0, 2), "beer"),
        (Tid::new(0, 3), "craft wine"),
        (Tid::new(0, 4), "crafty beer"),
    ]);
    let src = Sources { segments: vec![(&seg, None)], pending: &[] };
    let mut a = Analyzer::new();
    let filter = Plan::parse("beer", &mut a).unwrap();
    let mut r = Ranked::new(sb("craft"), Some(filter));
    assert_eq!(drain(&mut r, &src), [(0, 1, 0), (0, 4, 1), (0, 2, NO_TIER)]);
}

#[test]
fn fragment_candidates_are_flagged() {
    // Tuple 1 has the grams of `12345` split over two terms: a candidate
    // only. Tuple 2 really contains it.
    let mut b = SegmentBuilder::new(0, 1).with_grams(true);
    b.add(Tid::new(0, 1), "a1234b c2345d");
    b.add(Tid::new(0, 2), "x123456");
    let seg = b.finish();
    let src = Sources { segments: vec![(&seg, None)], pending: &[] };
    let mut r = Ranked::new(SearchBox::parse("12345", &mut Analyzer::new()), None);
    let mut hits = Vec::new();
    while let Some(h) = r.next(&src) {
        hits.push(h);
    }
    let h1 = hits.iter().find(|h| h.tid == Tid::new(0, 1)).expect("candidate returned");
    assert!(h1.recheck && h1.tier_is_bound && h1.tier == 2);
    assert!(hits.iter().any(|h| h.tid == Tid::new(0, 2) && h.tier == 2));
}

#[test]
fn fragment_hits_are_bounds() {
    let seg = segment(&[(Tid::new(0, 1), "x123456"), (Tid::new(0, 2), "12345")]);
    let src = Sources { segments: vec![(&seg, None)], pending: &[] };
    let mut r = Ranked::new(sb("12345"), None);
    let first = r.next(&src).unwrap();
    assert_eq!((first.tid, first.tier, first.recheck), (Tid::new(0, 2), 0, false));
    let second = r.next(&src).unwrap();
    assert_eq!((second.tid, second.tier), (Tid::new(0, 1), 2));
    assert!(second.recheck && second.tier_is_bound);
    assert!(r.next(&src).is_none());
}

#[test]
fn dead_tuples_stay_out_of_ranked_scans() {
    let seg = segment(&[(Tid::new(0, 1), "beer"), (Tid::new(0, 2), "beer"), (Tid::new(0, 3), "beers")]);
    // The first page has three positions; the second is dead.
    let live = [0b101u64];
    let src = Sources { segments: vec![(&seg, Some(&live[..]))], pending: &[] };
    let mut r = Ranked::new(sb("beer"), None);
    assert_eq!(drain(&mut r, &src), [(0, 1, 0), (0, 3, 1)]);
}

#[test]
fn streaming_takes_many_terms() {
    // More matching terms than one streaming step takes.
    let texts: Vec<String> = (0..100).map(|i| format!("abc{i:03}")).collect();
    let docs: Vec<(Tid, &str)> = texts.iter().enumerate().map(|(i, t)| (Tid::new(0, i as u16 + 1), t.as_str())).collect();
    let seg = segment(&docs);
    let src = Sources { segments: vec![(&seg, None), (&seg, None)], pending: &[] };
    let mut r = Ranked::new(sb("abc"), None);
    let hits = drain(&mut r, &src);
    assert_eq!(hits.len(), 100);
    assert!(hits.iter().all(|h| h.2 == 1));
    assert_eq!(hits[0], (0, 1, 1));
    assert_eq!(hits[99], (0, 100, 1));
}

#[test]
fn same_search() {
    assert!(sb("a b").same(&sb("b A")));
    assert!(!sb("a b").same(&sb("a")));
    assert!(!sb("a").same(&sb("a").with_max_typos(1)));
    assert_eq!(sb("b a").terms(), &["a", "b"]);
}
