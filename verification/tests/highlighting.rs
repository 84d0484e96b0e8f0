//! Highlights and snippets.

use tin::highlight::{highlight, joinable, snippet};
use tin::query::Query;
use tin::tokenize::Analyzer;

fn hl(q: &str, doc: &str) -> String {
    let mut a = Analyzer::new();
    highlight(doc, &Query::parse(q, &mut a).unwrap(), &mut a, "[", "]")
}

#[test]
fn highlights() {
    let doc = "The big bad wolf ate a big, grey wolf.";
    assert_eq!(hl("wolf", doc), "The big bad [wolf] ate a big, grey [wolf].");
    assert_eq!(hl("\"big bad wolf\"", doc), "The [big bad wolf] ate a big, grey wolf.");
    // "big bad wolf" fits "big _ wolf" too.
    assert_eq!(hl("\"BIG _ wolf\"", doc), "The [big] bad [wolf] ate a [big], grey [wolf].");
    assert_eq!(hl("\"bad _ _ _ big\"", doc), "The big [bad] wolf ate a [big], grey wolf.");
    assert_eq!(hl("grey NEAR/0 wolf big", doc), "The [big] bad wolf ate a [big], [grey wolf].");
    assert_eq!(hl("wolf AND NOT cat", doc), "The big bad [wolf] ate a big, grey [wolf].");
    assert_eq!(hl("gr*", "Grüße, grey"), "[Grüße], [grey]");
    assert_eq!(hl("e-mail", "send e-mail now"), "send [e-mail] now");
}

#[test]
fn snippets() {
    let mut a = Analyzer::new();
    let doc = (0..40).map(|i| format!("w{i}")).collect::<Vec<_>>().join(" ");
    let q = Query::parse("w20 w21", &mut a).unwrap();
    let s = snippet(&doc, &q, &mut a, "[", "]", 8);
    assert_eq!(s, "…w18 w19 [w20 w21] w22 w23 w24 w25…");
    let q = Query::parse("w0", &mut a).unwrap();
    assert_eq!(snippet(&doc, &q, &mut a, "[", "]", 3), "[w0] w1 w2…");
    assert_eq!(snippet("a b", &q, &mut a, "[", "]", 10), "a b");
}

#[test]
fn words_share_a_marker() {
    assert!(joinable(" ") && joinable("-") && joinable("  \t"));
    assert!(!joinable(", "));
}

#[test]
fn empty_markers_leave_the_text() {
    let mut a = Analyzer::new();
    let q = Query::parse("wolf OR \"big bad\"", &mut a).unwrap();
    let doc = "The big bad wolf — ate a big, grey wolf…";
    assert_eq!(highlight(doc, &q, &mut a, "", ""), doc);
    // Without its markers a highlighted text is the text.
    let marked = highlight(doc, &q, &mut a, "<b>", "</b>");
    assert_eq!(marked, "The <b>big bad wolf</b> — ate a big, grey <b>wolf</b>…");
    assert_eq!(marked.replace("<b>", "").replace("</b>", ""), doc);
}
