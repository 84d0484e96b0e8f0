//! The benchmark's pieces: heap layout, query sets, the baseline engine and
//! the report's tables.

use tin::baseline::{difference, intersect, union, Baseline};
use tin::heap::layout;
use tin::index::Index;
use tin::plan::Plan;
use tin::postings::Encoding;
use tin::queries::{term_pool, Kind, QuerySet, Rng, MIN_POOL};
use tin::report::{class_of, fmt_n, size_table, Class};
use tin::tid::Tid;

#[test]
fn heap_pages_fill_in_order() {
    // 32 fixed + 1 header + 7 text = 40, and a 4-byte line pointer.
    let docs = vec!["seven c"; 400];
    let l = layout(&docs);
    assert_eq!(l.tids[0], Tid::new(0, 1));
    let per_page = 8168 / 44;
    assert_eq!(l.tids[per_page - 1], Tid::new(0, per_page as u16));
    assert_eq!(l.tids[per_page], Tid::new(1, 1));
    assert_eq!((l.pages, l.toasted), (400usize.div_ceil(per_page), 0));
    assert!(l.tids.windows(2).all(|w| w[0] < w[1]));
}

#[test]
fn long_texts_are_toasted() {
    // 32 + 4 + 1996 = 2032, the largest tuple kept whole.
    let (kept, toasted) = ("x".repeat(1996), "x".repeat(1997));
    assert_eq!(layout(&[kept.as_str()]).toasted, 0);
    assert_eq!(layout(&[toasted.as_str()]).toasted, 1);
    // Four whole ones leave 8168 - 4 * 2036 = 24 bytes; toasted ones take 60.
    let l = layout(&[kept.as_str(); 5]);
    assert_eq!(l.tids[3..], [Tid::new(0, 4), Tid::new(1, 1)]);
    let l = layout(&vec![toasted.as_str(); 137]);
    assert_eq!(l.tids[135..], [Tid::new(0, 136), Tid::new(1, 1)]);
    assert_eq!(layout(&[]).pages, 1);
}

#[test]
fn split_mix_numbers() {
    let mut r = Rng(0);
    assert_eq!([r.next(), r.next()], [0xE220_A839_7B1D_CDAF, 0x6E78_9E6A_A1B9_65F4]);
    let mut r = Rng(0);
    assert_eq!(r.below(1000), (0xE220_A839_7B1D_CDAFu64 % 1000) as usize);
}

#[test]
fn sorted_set_operations() {
    let (a, b) = ([1, 3, 5, 9], [2, 3, 9, 10]);
    assert_eq!(intersect(&a, &b), [3, 9]);
    assert_eq!(union(&a, &b), [1, 2, 3, 5, 9, 10]);
    assert_eq!(difference(&a, &b), [1, 5]);
    let long: Vec<u64> = (0..5000).map(|i| i * 2).collect();
    assert_eq!(intersect(&[1, 4, 4096, 9999], &long), [4, 4096]);
    assert_eq!(intersect(&long, &[1, 4, 4096, 9999]), [4, 4096]);
    assert!(intersect(&[], &long).is_empty());
}

fn corpus(n: usize) -> Vec<(Tid, String)> {
    let texts: Vec<String> = (0..n)
        .map(|i| {
            let mut s = String::from("all");
            for k in 0..12usize {
                if i % (k + 1) == 0 {
                    s.push_str(&format!(" w{k}"));
                }
            }
            s
        })
        .collect();
    let lines: Vec<&str> = texts.iter().map(|t| t.as_str()).collect();
    layout(&lines).tids.into_iter().zip(texts).collect()
}

#[test]
fn generated_queries_agree_with_the_baseline() {
    let docs = corpus(13_000);
    let index = Index::build(&docs, 3);
    let pool = term_pool(&index);
    assert_eq!(pool.len(), 13);
    assert_eq!(pool[0], ("all".to_string(), 13_000));
    assert_eq!(pool[12], ("w11".to_string(), 1_084));
    let qs = QuerySet::generate(&index, 5, 42).unwrap();
    assert_eq!(qs.pool_size, 13);
    assert_eq!(qs.all().len(), 20);
    let baseline = Baseline::build(&docs);
    for q in qs.all() {
        let got: Vec<u64> = index.search_vec(&q.plan).iter().map(|t| t.key()).collect();
        assert_eq!(got, baseline.eval(&q.plan), "{}", q.text);
        assert_eq!(index.count(&q.plan), got.len() as u64);
    }
    for (i, kind) in Kind::all().into_iter().enumerate() {
        assert_eq!(qs.of(kind), (5 * i..5 * i + 5).collect::<Vec<_>>());
    }
    // The same seed gives the same queries.
    let again = QuerySet::generate(&index, 5, 42).unwrap();
    let other = QuerySet::generate(&index, 5, 43).unwrap();
    let texts = |s: &QuerySet| s.all().iter().map(|q| q.text.clone()).collect::<Vec<_>>();
    assert_eq!(texts(&qs), texts(&again));
    assert_ne!(texts(&qs), texts(&other));
    // None of each kind are asked for.
    let none = QuerySet::generate(&index, 0, 42).unwrap();
    assert_eq!((none.pool_size, none.all().len()), (13, 0));
    assert_eq!(baseline.bytes(), docs.iter().map(|(_, t)| t.split(' ').count() * 8).sum::<usize>());
}

#[test]
fn small_corpora_give_no_queries() {
    let docs = corpus(50);
    let index = Index::build(&docs, 1);
    assert!(term_pool(&index).len() < MIN_POOL);
    assert!(QuerySet::generate(&index, 5, 42).is_none());
}

#[test]
fn kind_names() {
    let names: Vec<&str> = Kind::all().into_iter().map(|k| k.name()).collect();
    assert_eq!(names, ["Conjunction", "Disjunction", "Mixed", "Negation"]);
}

#[test]
fn baseline_plans() {
    let docs: Vec<(Tid, String)> = vec![
        (Tid::new(0, 1), "red green".to_string()),
        (Tid::new(0, 2), "green blue".to_string()),
        (Tid::new(5, 1), "blue".to_string()),
    ];
    let b = Baseline::build(&docs);
    let term = |t: &str| Plan::Term(t.to_string());
    let keys = |ts: &[usize]| ts.iter().map(|&i| docs[i].0.key()).collect::<Vec<_>>();
    assert_eq!(b.eval(&term("green")), keys(&[0, 1]));
    assert_eq!(b.eval(&Plan::And(vec![term("green"), term("blue")])), keys(&[1]));
    assert_eq!(b.eval(&Plan::Or(vec![term("red"), term("blue")])), keys(&[0, 1, 2]));
    assert_eq!(b.eval(&Plan::AndNot(Box::new(term("blue")), Box::new(term("green")))), keys(&[2]));
    assert!(b.eval(&term("black")).is_empty());
}

#[test]
fn term_classes() {
    assert_eq!(class_of(10, 1000), Class::High);
    assert_eq!(class_of(9, 1000), Class::Medium);
    assert_eq!(class_of(1, 10_000), Class::Medium);
    assert_eq!(class_of(1, 10_001), Class::Rare);
    assert_eq!(class_of(u64::MAX / 100, u64::MAX), Class::Medium);
}

#[test]
fn numbers_are_grouped() {
    let got = [0, 12, 123, 1_234, 123_456, 1_000_000, u64::MAX].map(fmt_n);
    assert_eq!(got, ["0", "12", "123", "1,234", "123,456", "1,000,000", "18,446,744,073,709,551,615"]);
}

#[test]
fn size_tables_add_up() {
    let mut docs = corpus(13_000);
    docs[7].1.push_str(" once");
    let (index, sizes) = Index::build_with_stats(&docs, 1);
    let seg = &index.segments()[0];
    let rows = size_table(&sizes[0], seg.meta().doc_count);
    assert_eq!(rows.len(), 9);
    assert_eq!((rows[0].class, rows[0].encoding), (Class::High, Encoding::Singleton));
    assert_eq!((rows[5].class, rows[5].encoding), (Class::Medium, Encoding::Groups));
    assert_eq!(rows.iter().map(|r| r.stats.terms).sum::<u64>(), 14);
    assert_eq!(rows.iter().map(|r| r.stats.postings).sum::<u64>(), seg.meta().posting_count);
    assert_eq!(rows.iter().map(|r| r.stats.bytes).sum::<u64>() + 16, seg.postings_bytes() as u64);
    let once = rows.iter().find(|r| r.encoding == Encoding::Singleton && r.stats.terms == 1).unwrap();
    assert_eq!((once.class, once.stats.postings, once.stats.bytes), (Class::Rare, 1, 0));
}
