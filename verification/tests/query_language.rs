//! The query language: what a query parses to, its plan, and what it matches.

use tin::error::QueryError;
use tin::interval::minimize;
use tin::plan::{Plan, SortedTerms};
use tin::query::{Query, Slot, Weight};
use tin::span::{DocWords, Wanted};
use tin::tokenize::Analyzer;
use tin::windows::cover;

fn plan(s: &str) -> Result<Plan, QueryError> {
    Plan::parse(s, &mut Analyzer::new())
}
fn t(s: &str) -> Plan {
    Plan::Term(s.into())
}

#[test]
fn precedence_and_grouping() {
    assert_eq!(plan("a b OR c").unwrap(), Plan::Or(vec![Plan::And(vec![t("a"), t("b")]), t("c")]));
    assert_eq!(plan("a (b OR c)").unwrap(), Plan::And(vec![t("a"), Plan::Or(vec![t("b"), t("c")])]));
    assert_eq!(plan("a AND b").unwrap(), plan("a b").unwrap());
    assert_eq!(plan("Café").unwrap(), t("cafe"));
}

#[test]
fn negation() {
    assert_eq!(plan("a -b").unwrap(), Plan::AndNot(Box::new(t("a")), Box::new(t("b"))));
    assert_eq!(
        plan("a NOT b -c").unwrap(),
        Plan::AndNot(Box::new(t("a")), Box::new(Plan::Or(vec![t("b"), t("c")])))
    );
    assert_eq!(plan("-a"), Err(QueryError::UnboundedNegation));
    assert_eq!(plan("a OR -b"), Err(QueryError::UnboundedNegation));
    // A hyphen inside a word is not negation; the word is a phrase.
    assert_eq!(plan("e-mail").unwrap(), Plan::Recheck(Box::new(Plan::And(vec![t("e"), t("mail")]))));
}

#[test]
fn matches_text() {
    let mut a = Analyzer::new();
    let p = plan("(denim OR chino) -stretch").unwrap();
    assert!(p.matches_text("Raw DENIM jacket", &mut a));
    assert!(!p.matches_text("stretch denim", &mut a));
    assert!(!p.matches_text("wool coat", &mut a));
}

#[test]
fn patterns() {
    assert_eq!(plan("MSKU12*").unwrap(), Plan::Prefix("msku12".into()));
    assert_eq!(plan("*1234565*").unwrap(), Plan::Fragment("1234565".into()));
    assert_eq!(plan("*4565").unwrap(), Plan::Fragment("4565".into()));
    assert_eq!(plan("msku1243565~").unwrap(), Plan::Fuzzy("msku1243565".into(), 1));
    assert_eq!(plan("msku1243565~2").unwrap(), Plan::Fuzzy("msku1243565".into(), 2));
    assert_eq!(
        plan("maeu* -*999*").unwrap(),
        Plan::AndNot(Box::new(Plan::Prefix("maeu".into())), Box::new(Plan::Fragment("999".into())))
    );
    assert!(matches!(plan("e-mail*"), Err(QueryError::BadPattern(_))));
    assert!(matches!(plan("*abc~"), Err(QueryError::BadPattern(_))));
    let mut a = Analyzer::new();
    let doc = "MSKU6018200 234567890 MAEU123456789";
    for (q, want) in [
        ("msku60*", true),
        ("msku7*", false),
        ("*18200*", true),
        ("*4567*", true),
        ("*99*", false),
        ("msku6012800~", true), // swap 8<->2
        ("msku6012801~", false),
        ("msku6012801~2", true),
        ("maeu* -*999*", true),
        ("maeu* -*4567*", false),
    ] {
        assert_eq!(plan(q).unwrap().matches_text(doc, &mut a), want, "{q}");
    }
    assert!(plan("a *bc* d").unwrap().needs_recheck());
    assert!(!plan("a -*bc*").unwrap().needs_recheck());
    assert!(!plan("abc* def~").unwrap().needs_recheck());
}

#[test]
fn errors() {
    assert_eq!(plan("  ... "), Err(QueryError::Empty));
    assert_eq!(plan("(a b"), Err(QueryError::UnbalancedParens));
    assert_eq!(plan("a b)"), Err(QueryError::UnbalancedParens));
    assert_eq!(plan("a -").unwrap(), t("a"));
    assert_eq!(plan("a NOT OR b").unwrap(), Plan::Or(vec![t("a"), t("b")]));
    for bad in [
        "\"a b",
        "\"\"",
        "a THEN b",
        "a NEAR/x b",
        "a THEN/2",
        "THEN/2 b",
        "a^x",
        "a ^2",
        "[]",
        "[a b",
        "AT LEAST 0 OF [a b]",
        "AT LEAST 2 OF a",
        "[a OR b]",
        "\"a [b c\"",
    ] {
        assert!(matches!(plan(bad), Err(QueryError::Syntax(_) | QueryError::UnbalancedParens)), "{bad}");
    }
}

fn q(s: &str) -> Query {
    Query::parse(s, &mut Analyzer::new()).unwrap()
}
fn qt(s: &str) -> Query {
    Query::Term(s.into())
}
fn w(s: &str) -> Weight {
    Weight { text: s.into() }
}
fn phrase(terms: &[(&str, u32)], slop: u32) -> Query {
    let slots = terms.iter().map(|&(t, offset)| Slot { offset, alts: vec![qt(t)] }).collect();
    Query::Phrase { slots, slop }
}

#[test]
fn tinql_syntax() {
    assert_eq!(q("\"Big bad wolf\""), phrase(&[("big", 0), ("bad", 1), ("wolf", 2)], 0));
    assert_eq!(q("\"_ big _ _ wolf _\"~3"), phrase(&[("big", 0), ("wolf", 3)], 3));
    assert_eq!(q("e-mail"), phrase(&[("e", 0), ("mail", 1)], 0));
    assert_eq!(q("\"fast e-mail\""), phrase(&[("fast", 0), ("e", 1), ("mail", 2)], 0));
    assert_eq!(
        q("\"[big, large] wolf\""),
        Query::Phrase {
            slots: vec![
                Slot { offset: 0, alts: vec![qt("big"), qt("large")] },
                Slot { offset: 1, alts: vec![qt("wolf")] }
            ],
            slop: 0
        }
    );
    assert_eq!(q("\"wolf\""), qt("wolf"));
    assert_eq!(q("[beer, ale lager]"), Query::Or(vec![qt("beer"), qt("ale"), qt("lager")]));
    assert_eq!(q("1,000"), qt("1,000"));
    assert_eq!(q("ALL OF [a b]"), Query::And(vec![qt("a"), qt("b")]));
    assert_eq!(q("AT LEAST 1 OF [a b]"), Query::Or(vec![qt("a"), qt("b")]));
    assert_eq!(
        q("AT LEAST 2 OF [a b c]"),
        Query::AtLeast { min: 2, of: vec![qt("a"), qt("b"), qt("c")] }
    );
    assert_eq!(
        q("AT LEAST 50% OF [a b c]"),
        Query::AtLeast { min: 2, of: vec![qt("a"), qt("b"), qt("c")] }
    );
    // Lower-case keywords are words.
    assert_eq!(q("at least of"), Query::And(vec![qt("at"), qt("least"), qt("of")]));
    let near = |l, r, gap, ordered| Query::Near { left: Box::new(l), right: Box::new(r), gap, ordered };
    assert_eq!(q("a THEN/2 b NEAR/5 c"), near(near(qt("a"), qt("b"), 2, true), qt("c"), 5, false));
    // Proximity binds tighter than AND, AND than OR.
    assert_eq!(
        q("x OR a THEN/1 b c"),
        Query::Or(vec![qt("x"), Query::And(vec![near(qt("a"), qt("b"), 1, true), qt("c")])])
    );
    assert_eq!(q("beer^2"), Query::Boost(Box::new(qt("beer")), w("2")));
    assert_eq!(q("\"a b\"^0.5"), Query::Boost(Box::new(phrase(&[("a", 0), ("b", 1)], 0)), w("0.5")));
    assert_eq!(q("a AND NOT b"), Query::And(vec![qt("a"), Query::Not(Box::new(qt("b")))]));
    assert_eq!(q("\"say \\\"hi\\\"\""), phrase(&[("say", 0), ("hi", 1)], 0));
}

#[test]
fn positional_plans() {
    // Phrases and proximity: their terms, rechecked.
    let rc = |p| Plan::Recheck(Box::new(p));
    assert_eq!(plan("\"a b\"").unwrap(), rc(Plan::And(vec![t("a"), t("b")])));
    assert_eq!(plan("\"[a c] b\"").unwrap(), rc(Plan::And(vec![Plan::Or(vec![t("a"), t("c")]), t("b")])));
    assert_eq!(plan("a NEAR/3 b").unwrap(), rc(Plan::And(vec![t("a"), t("b")])));
    assert_eq!(plan("AT LEAST 2 OF [a b c]").unwrap(), rc(Plan::Or(vec![t("a"), t("b"), t("c")])));
    // Under a negation the index can only subtract what is certain.
    assert_eq!(plan("a -\"b c\"").unwrap(), rc(t("a")));
    assert_eq!(
        plan("a -AT LEAST 2 OF [b c d]").unwrap(),
        rc(Plan::AndNot(Box::new(t("a")), Box::new(Plan::And(vec![t("b"), t("c"), t("d")]))))
    );
    assert_eq!(plan("a -(b OR \"c d\")").unwrap(), rc(Plan::AndNot(Box::new(t("a")), Box::new(t("b")))));
    assert!(!plan("a b^2 -c").unwrap().needs_recheck());
}

fn m(q: &str, doc: &str) -> bool {
    let mut a = Analyzer::new();
    Query::parse(q, &mut a).unwrap().matches_text(doc, &mut a)
}

#[test]
fn minimal_intervals() {
    let mut v = vec![(0, 5), (1, 3), (2, 3), (4, 6), (4, 6), (7, 7)];
    minimize(&mut v);
    assert_eq!(v, [(2, 3), (4, 6), (7, 7)]);
    let lists = vec![vec![(0, 0), (5, 5)], vec![(2, 2), (9, 9)], vec![(3, 3)]];
    assert_eq!(cover(&lists, 3), [(0, 3), (2, 5), (3, 9)]);
    assert_eq!(cover(&lists, 2), [(0, 2), (2, 3), (3, 5), (5, 9)]);
}

#[test]
fn phrases() {
    let doc = "the big bad wolf ate a big grey wolf";
    assert!(m("\"big bad wolf\"", doc));
    assert!(!m("\"bad big wolf\"", doc));
    assert!(m("\"big _ wolf\"", doc));
    assert!(!m("\"big _ _ wolf\"", doc)); // exactly two words between: none
    assert!(m("\"[big large] grey wolf\"", doc));
    assert!(!m("\"big wolf\"", doc));
    assert!(m("\"big wolf\"~1", doc));
    assert!(m("\"the wolf\"~2", doc));
    assert!(!m("\"the wolf\"~1", doc));
    assert!(m("\"Big-Bad\"", doc)); // one word the analyzer splits
    assert!(m("big-bad", doc));
    assert!(!m("bad-big", doc));
}

#[test]
fn proximity() {
    let doc = "craft pale beer and more beer";
    assert!(m("craft THEN/0 pale", doc));
    assert!(!m("craft THEN/0 beer", doc));
    assert!(m("craft THEN/1 beer", doc));
    assert!(!m("beer THEN/5 craft", doc));
    assert!(m("beer NEAR/1 craft", doc));
    assert!(!m("beer NEAR/0 craft", doc));
    assert!(m("\"craft pale\" THEN/0 beer", doc));
    assert!(m("craft THEN/1 beer THEN/2 beer", doc));
    assert!(!m("craft THEN/1 beer THEN/1 beer", doc));
    assert!(m("[ale beer] NEAR/1 craft", doc));
    assert!(m("(craft AND NOT lager) NEAR/2 beer", doc));
    assert!(!m("(craft AND NOT pale) NEAR/2 beer", doc));
}

#[test]
fn at_least_and_boolean() {
    let doc = "one two three";
    assert!(m("AT LEAST 2 OF [one four three]", doc));
    assert!(!m("AT LEAST 2 OF [one four five]", doc));
    assert!(m("AT LEAST 50% OF [one two four five]", "one two"));
    assert!(!m("AT LEAST 50% OF [one two four five]", "one six"));
    assert!(!m("AT LEAST 60% OF [one two four five]", "one two")); // 3 of 4, rounded up
    assert!(m("ALL OF [one two]", doc));
    assert!(m("one AND NOT \"three two\"", doc));
    assert!(!m("one AND NOT \"two three\"", doc));
    assert!(m("one^2 two", doc));
}

#[test]
fn messages() {
    let text = |s: &str| match plan(s) {
        Err(e) => e.message(),
        Ok(_) => String::new(),
    };
    assert_eq!(text(""), "query has no searchable terms");
    assert_eq!(text("(a"), "unbalanced parentheses or brackets");
    assert_eq!(text("-a"), "negation needs a positive term beside it");
    assert_eq!(text("a THEN b"), "THEN needs a distance: THEN/N");
}

#[test]
fn boosts_are_bounded() {
    assert!(plan("beer^10000").is_ok());
    assert!(plan("beer^1e4").is_ok());
    assert!(matches!(plan("beer^10001"), Err(QueryError::Syntax(_))));
    assert!(matches!(plan("beer^10000.5"), Err(QueryError::Syntax(_))));
}

#[test]
fn shares_round_up() {
    // 7% of 100 items is 7 of them.
    let items: Vec<String> = (0..100).map(|i| format!("w{i}")).collect();
    match q(&format!("AT LEAST 7% OF [{}]", items.join(" "))) {
        Query::AtLeast { min, of } => assert_eq!((min, of.len()), (7, 100)),
        _ => panic!("a threshold"),
    }
}

#[test]
fn plans_flag_blurred_negations() {
    // a, unless b without c: the index can only subtract what is certain.
    let p = plan("a -(b -c)").unwrap();
    assert!(p.needs_recheck());
    let mut a = Analyzer::new();
    assert!(q("a -(b -c)").matches_text("a b c", &mut a));
    assert!(!q("a -(b -c)").matches_text("a b", &mut a));
}

#[test]
fn every_loose_query_is_rechecked() {
    // A fragment beside a phrase: the fragment is no reason to leave the
    // phrase unchecked.
    let p = plan("\"a b\" *cd*").unwrap();
    assert!(matches!(p, Plan::Recheck(_)));
    let mut a = Analyzer::new();
    let text = "b a cd";
    assert!(p.matches_text(text, &mut a));
    assert!(!q("\"a b\" *cd*").matches_text(text, &mut a));
    assert!(q("\"a b\" *cd*").matches_text("a b xcdy", &mut a));
    assert!(matches!(plan("*cd*").unwrap(), Plan::Fragment(_)));
}

#[test]
fn repeated_negations_are_rejected() {
    assert!(matches!(plan("a --b"), Err(QueryError::Syntax(_))));
    assert!(matches!(plan("a NOT NOT b"), Err(QueryError::Syntax(_))));
}

#[test]
fn words_of_a_document() {
    let mut a = Analyzer::new();
    let query = q("beer NEAR/1 craft");
    let all = DocWords::new("craft beer and beer", &mut a);
    assert_eq!((all.words(), all.distinct_terms()), (4, 3));
    assert_eq!(all.positions("beer"), [1, 3]);
    assert_eq!(all.leaf_terms(&q("b*")), [("beer".to_owned(), vec![1, 3])]);
    assert_eq!(all.marks(&query), [0, 1]);
    // Only the words that the query asks for.
    let wanted = Wanted::new(&query);
    let some = DocWords::with("craft beer and beer", &mut a, &wanted);
    assert!(some.matches(&query));
    assert_eq!(some.spans(&query), all.spans(&query));
}

#[test]
fn plans_without_an_index() {
    let terms: Vec<String> = ["ale", "beer", "craft"].iter().map(|s| s.to_string()).collect();
    assert!(plan("cra* -lager").unwrap().matches(&SortedTerms(&terms)));
    assert!(!plan("cra* -*ee*").unwrap().matches(&SortedTerms(&terms)));
    assert!(plan("bere~").unwrap().matches(&SortedTerms(&terms)));
    assert_eq!(plan("a \"b c\"").unwrap().copy(), plan("a \"b c\"").unwrap());
}

#[test]
fn words_are_parted_by_any_white_space() {
    assert_eq!(plan("craft\u{3000}beer").unwrap(), plan("craft beer").unwrap());
    assert_eq!(plan("craft\u{a0}-ale").unwrap(), plan("craft -ale").unwrap());
}

#[test]
fn bad_patterns_are_quoted() {
    let e = plan("foo-bar*").unwrap_err();
    assert_eq!(e, QueryError::BadPattern("foo-bar*".to_string()));
    assert_eq!(e.message(), "pattern \"foo-bar*\" must be one term: word*, *fragment*, or word~ / word~2");
}
