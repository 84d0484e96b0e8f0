//! Tuple ids, varints, bitmaps, bit streams, patterns and words.

use tin::bitmap::{OffsetBits, PageBits};
use tin::pattern::{grams, osa_within, Osa};
use tin::postings::TAIL_PADDING;
use tin::stream::{copy_bits_or, BitWriter};
use tin::tid::{Tid, MAX_OFFSET};
use tin::tokenize::{ascii_words, for_each_word, Analyzer, MAX_TERM_BYTES};
use tin::varint;
use unicode_segmentation::UnicodeSegmentation;

#[test]
fn key_roundtrip_and_order() {
    let a = Tid::new(0, 1);
    let b = Tid::new(0, MAX_OFFSET);
    let c = Tid::new(1, 1);
    let d = Tid::new(u32::MAX, MAX_OFFSET);
    for t in [a, b, c, d] {
        assert_eq!(Tid::from_key(t.key()), t);
        assert_eq!(Tid::from_parts(t.group(), t.page_in_group(), t.offset_bit()), t);
    }
    assert!(a.key() < b.key() && b.key() < c.key() && c.key() < d.key());
    assert_eq!(Tid::new(3, 5).key(), 3 * 512 + 4);
}

#[test]
fn roundtrip() {
    let vals = [0u64, 1, 127, 128, 300, 16_383, 16_384, u32::MAX as u64, u64::MAX];
    let mut buf = Vec::new();
    for &v in &vals {
        varint::put(&mut buf, v);
    }
    let mut pos = 0;
    for &v in &vals {
        assert_eq!(varint::get(&buf, &mut pos), v);
    }
    assert_eq!(pos, buf.len());
}

#[test]
fn varint_bytes() {
    let mut buf = Vec::new();
    varint::put(&mut buf, 300);
    assert_eq!(buf, [0xAC, 0x02]);
    // An over-long encoding reads the same.
    let mut pos = 0;
    assert_eq!(varint::get(&[0x80, 0x80, 0x00], &mut pos), 0);
    assert_eq!(pos, 3);
}

#[test]
fn ops() {
    let mut a = OffsetBits::zero();
    let mut b = OffsetBits::zero();
    for i in [0, 63, 64, 290] {
        a.set(i);
    }
    for i in [63, 290, 300] {
        b.set(i);
    }
    assert_eq!((a & b).ones(), vec![63, 290]);
    assert_eq!((a | b).ones(), vec![0, 63, 64, 290, 300]);
    assert_eq!(a.and_not(b).ones(), vec![0, 64]);
    assert_eq!((a & b).count(), 2);
    assert!((a & !a).is_zero());

    let mut p = PageBits::zero();
    for i in (3..70).chain([100, 191, 192, 250, 251, 252, 253, 254, 255]) {
        p.set(i);
    }
    let runs: Vec<_> = p.runs().collect();
    assert_eq!(runs, vec![(3, 70), (100, 101), (191, 193), (250, 256)]);
    let mut q = PageBits::zero();
    for i in [0, 63, 64, 127, 128, 200] {
        q.set(i);
    }
    assert_eq!(q.runs().collect(), vec![(0, 1), (63, 65), (127, 129), (200, 201)]);
    assert_eq!((p.first(), p.last()), (Some(3), Some(255)));
    assert_eq!((PageBits::zero().first(), PageBits::zero().last()), (None, None));
    assert_eq!((!PageBits::zero()).runs().collect(), vec![(0, 256)]);
    assert_eq!(PageBits::zero().runs().next(), None);
    assert!(p.get(3) && !p.get(2));
}

#[test]
fn bitstream_roundtrip() {
    // Widths that straddle word and byte boundaries in every way.
    let widths = [1usize, 7, 13, 64, 65, 200, 291, 3, 128, 63];
    let mut pages = Vec::new();
    let mut bw = BitWriter::new(Vec::new());
    let mut seed = 0x1234_5678u64;
    for &w in &widths {
        let mut bits = OffsetBits::zero();
        for b in 0..w {
            seed = seed.wrapping_mul(6364136223846793005).wrapping_add(1442695040888963407);
            if seed >> 63 == 1 {
                bits.set(b);
            }
        }
        let mut left = w;
        for &word in &bits.0 {
            if left == 0 {
                break;
            }
            let n = left.min(64);
            bw.write(word, n as u32);
            left -= n;
        }
        pages.push((w, bits));
    }
    let mut buf = bw.finish();
    let total: usize = widths.iter().sum();
    assert_eq!(buf.len(), total.div_ceil(8));
    buf.resize(buf.len() + TAIL_PADDING, 0);
    // Copy each page's bits to a different alignment and compare.
    let mut at = 0;
    for (w, bits) in pages {
        for dst_bit in [0, 1, 37, 63, 64, 100] {
            let mut out = vec![0u64; 10];
            copy_bits_or(&buf, at, &mut out, dst_bit, w);
            let got: Vec<usize> = (0..w)
                .filter(|&b| {
                    let x = dst_bit + b;
                    out[x >> 6] >> (x & 63) & 1 == 1
                })
                .collect();
            assert_eq!(got, bits.ones(), "width {w} at bit {at} -> {dst_bit}");
            assert_eq!(out.iter().map(|w| w.count_ones()).sum::<u32>(), bits.count());
        }
        at += w;
    }
}

/// Reference OSA distance.
#[allow(clippy::needless_range_loop)]
fn osa(a: &[u8], b: &[u8]) -> usize {
    let (n, m) = (a.len(), b.len());
    let mut d = vec![vec![0usize; m + 1]; n + 1];
    for (i, row) in d.iter_mut().enumerate() {
        row[0] = i;
    }
    for j in 0..=m {
        d[0][j] = j;
    }
    for i in 1..=n {
        for j in 1..=m {
            let cost = (a[i - 1] != b[j - 1]) as usize;
            d[i][j] = (d[i - 1][j] + 1).min(d[i][j - 1] + 1).min(d[i - 1][j - 1] + cost);
            if i > 1 && j > 1 && a[i - 1] == b[j - 2] && a[i - 2] == b[j - 1] {
                d[i][j] = d[i][j].min(d[i - 2][j - 2] + 1);
            }
        }
    }
    d[n][m]
}

#[test]
fn automaton_matches_reference_distance() {
    let words = [
        "msku6018200",
        "msku6012800",
        "msku6018201",
        "msku601820",
        "msku60182000",
        "mksu6018200",
        "msku6108200",
        "abc",
        "acb",
        "ab",
        "",
        "bac",
        "cab",
        "abcd",
        "badc",
        "12345",
        "13245",
    ];
    for a in words {
        for b in words {
            let d = osa(a.as_bytes(), b.as_bytes());
            for k in 0..=2u8 {
                assert_eq!(osa_within(a, b, k), d <= k as usize, "{a:?} vs {b:?} k={k} (d={d})");
            }
        }
    }
}

#[test]
fn grams_are_distinct_trigrams() {
    assert_eq!(grams("aaaab"), ["\u{1}aaa", "\u{1}aab"]);
    assert!(grams("ab").is_empty());
    assert_eq!(grams("æøå1"), ["\u{1}æøå", "\u{1}øå1"]);
}

#[test]
fn automaton_steps() {
    let aut = Osa::new(b"abc", 1);
    let mut s = aut.start();
    assert!(!aut.is_match(&s));
    for c in *b"acb" {
        s = aut.accept(&s, c);
        assert!(aut.can_match(&s));
    }
    assert!(aut.is_match(&s));
    s = aut.accept(&s, b'z');
    assert!(!aut.is_match(&s));
}

/// Deterministic xorshift, for the differential test.
struct Rng(u64);
impl Rng {
    fn below(&mut self, n: usize) -> usize {
        self.0 ^= self.0 << 13;
        self.0 ^= self.0 >> 7;
        self.0 ^= self.0 << 17;
        (self.0 % n as u64) as usize
    }
}

fn ours(text: &str) -> Vec<(usize, String)> {
    for_each_word(text)
}

fn reference(text: &str) -> Vec<(usize, String)> {
    text.unicode_word_indices().map(|(at, w)| (at, w.to_owned())).collect()
}

#[test]
fn words_match_unicode_segmentation() {
    // Every ASCII byte, plus non-ASCII letters, marks, joiners, quotes,
    // spaces and symbols that take part in UAX #29 rules.
    let mut alphabet: Vec<String> = (0u8..128).map(|b| (b as char).to_string()).collect();
    for s in [
        "é",
        "ü",
        "Å",
        "ß",
        "中",
        "日",
        "カ",
        "ア",
        "א",
        "ب",
        "\u{301}",
        "\u{200d}",
        "\u{200b}",
        "\u{a0}",
        "\u{2019}",
        "\u{2018}",
        "\u{b7}",
        "\u{2024}",
        "\u{fe13}",
        "\u{ff0e}",
        "\u{1f600}",
        "\u{1f1e9}",
        "\u{1f1f0}",
        "\u{2060}",
        "\u{ad}",
        "\u{2028}",
        "\u{3000}",
        "\u{661}",
        "\u{ff11}",
        "ﬁ",
        // Alphabetic combining marks: after a space they make a word of it.
        "\u{64e}",
        "\u{345}",
        "\u{903}",
        "\u{93e}",
    ] {
        alphabet.push(s.to_owned());
    }
    // Weight the characters the ASCII rules care about.
    for s in ["a", "b", "Z", "1", "2", "_", ".", "'", ",", ";", ":", " ", "-", "\"", "é", "\u{64e}"] {
        for _ in 0..8 {
            alphabet.push(s.to_owned());
        }
    }
    let mut rng = Rng(0x9E37_79B9_7F4A_7C15);
    for _ in 0..200_000 {
        let len = rng.below(14);
        let text: String = (0..len).map(|_| alphabet[rng.below(alphabet.len())].as_str()).collect();
        assert_eq!(ours(&text), reference(&text), "{text:?}");
    }
    for text in [
        "fox's 3.14 a:b a.b.c 1,000.5 a1.5 1.a _a_ __ a__b e-mail x.y, 'quoted' 12:30 U.S.A.",
        "done. \u{64e}",
        "a  \u{64e}b\t\u{64e}\n\u{64e}",
    ] {
        assert_eq!(ours(text), reference(text), "{text:?}");
    }
}

#[test]
fn folds_case_and_accents() {
    let mut a = Analyzer::new();
    assert_eq!(a.terms("Crème BRÛLÉE, naïve café!"), ["creme", "brulee", "naive", "cafe"]);
}

#[test]
fn terms_hold_no_control_characters() {
    let mut a = Analyzer::new();
    assert_eq!(for_each_word("\u{1}\u{64e}").len(), 1);
    assert!(a.terms("\u{1}\u{64e}").is_empty());
    assert_eq!(a.terms("a\u{1}\u{64e}b \u{9f}\u{301}é"), ["a", "b", "e"]);
    for c in (0..0xA0u32).filter_map(char::from_u32) {
        for t in a.terms(&format!("x{c}\u{64e}y{c}\u{301}é{c}")) {
            assert!(t.chars().all(|c| !c.is_control()), "{t:?}");
        }
    }
}

#[test]
fn unicode_word_boundaries() {
    let mut a = Analyzer::new();
    assert_eq!(
        a.terms("The quick (\"brown\") fox's 3.14 jumps."),
        ["the", "quick", "brown", "fox's", "3.14", "jumps"]
    );
    // NFKD only strips marks that decompose: å -> a, but ø and æ are
    // letters in their own right. (Full ASCII folding is a later option.)
    assert_eq!(a.terms("København ÆØÅ"), ["københavn", "æøa"]);
}

#[test]
fn positions_and_long_tokens() {
    let mut a = Analyzer::new();
    let long = "x".repeat(MAX_TERM_BYTES + 1);
    let text = format!("one {long} three");
    let seen = a.for_each_term(&text);
    assert_eq!(seen, [("one".to_owned(), 0), ("three".to_owned(), 2)]);
}

#[test]
fn tokens_know_where_they_stand() {
    let mut a = Analyzer::new();
    let tokens = a.for_each_token("Ünï, b");
    assert_eq!(tokens.len(), 2);
    assert_eq!((tokens[0].term.as_str(), tokens[0].pos, tokens[0].start, tokens[0].end), ("uni", 0, 0, 5));
    assert_eq!((tokens[1].term.as_str(), tokens[1].pos, tokens[1].start, tokens[1].end), ("b", 1, 7, 8));
    assert_eq!(a.unique_terms("b a B c a"), ["a", "b", "c"]);
    assert_eq!(ascii_words(b"fox's 3.14"), [(0, 5), (6, 10)]);
}

#[test]
fn documents_are_indexed_and_found() {
    let docs: Vec<(tin::Tid, String)> = [(0, 1, "stretch denim jeans"), (0, 2, "raw denim jacket"), (7, 1, "stretch chinos")]
        .into_iter()
        .map(|(b, o, t)| (tin::Tid::new(b, o), t.to_string()))
        .collect();
    let index = tin::Index::build(&docs, 2);
    let plan = tin::Plan::parse("denim -jacket", &mut tin::Analyzer::new()).unwrap();
    assert_eq!(index.search_vec(&plan), vec![tin::Tid::new(0, 1)]);
    assert_eq!(index.count(&tin::Plan::parse("stretch", &mut tin::Analyzer::new()).unwrap()), 2);
}
