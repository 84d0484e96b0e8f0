# tin

A full-text index for heap tuples, as a verified library: the functions under
`src/` carry contracts that Verus proves, except for a few calls into other
crates and the standard library, whose contracts are taken on trust (see
[Trust](#trust)).

## What it does

Documents are analyzed into terms, and each term's tuples are stored in the
form that suits them best: inline, as a gap list with a skip table, or as a
two-level bitmap over heap pages. Queries are written in a small language
(`craft beer`, `"craft beer"^2 OR ale`, `brew*`, `*craft*`, `beer~`,
`craft THEN/3 beer`, `AT LEAST 2 OF [...]`), or come from a search box whose
matches are ranked by tier: exact, prefix, fragment, one typo, two typos.

## Layout

- `src/tid.rs`, `words.rs`, `bitmap.rs`, `varint.rs`, `le.rs`, `stream.rs`,
  `bytes.rs`: tuple ids, bits and bytes
- `src/tokenize.rs`, `windows.rs`, `text.rs`, `pattern.rs`, `interval.rs`:
  words, folding, patterns and minimal intervals
- `src/grammar.rs`, `lexer.rs`, `parser.rs`, `query.rs`, `error.rs`,
  `numeral.rs`, `span.rs`, `highlight.rs`, `score.rs`: the query language and
  what it says of one document
- `src/plan.rs`, `planner.rs`, `plan_laws.rs`, `search.rs`: from queries to
  index plans
- `src/space.rs`, `wire.rs`, `postings.rs`, `leaf.rs`, `cursor.rs`,
  `combine.rs`, `drive.rs`, `dict.rs`, `terms.rs`, `segment.rs`, `merge.rs`,
  `index.rs`: segments, their encodings and their cursors
- `src/meta.rs`, `chain.rs`, `pending.rs`, `backlog.rs`, `registry.rs`,
  `load.rs`, `maintain.rs`: an index on pages, with its pending list, and its
  upkeep
- `src/seen.rs`, `rank.rs`, `scan.rs`: ranked and plain scans
- `src/heap.rs`, `baseline.rs`, `queries.rs`, `report.rs`: the benchmark's
  parts
- `tests/`: scenarios and randomized comparisons with naive evaluation
- `app/`: the command line: the benchmark, profiling tools, and an index in a
  page file

A segment's bytes are a head, the page directory, the dictionary and the
postings area behind their lengths, one bit per line pointer for the indexed
tuples, those without terms among them, and whether grams are stored.

A segment built with grams also stores the four-character grams of its terms, as
terms under a control character that no analyzed term holds. A fragment of four
characters or more is then looked up as an AND of its own grams, which gives
candidates to recheck; three characters are exact.

## Trust

The contracts of these calls are stated, not proved:

- `fst`: building, opening, reading and listing a dictionary, and its bytes
- `rustc-hash` with the standard library's `HashMap` and `HashSet`: making an
  empty one, `get` and `insert`
- `unicode-segmentation` and `unicode-normalization`: words, NFKD, combining
  marks
- the standard library: `char::is_whitespace`, `char::to_lowercase`,
  `std::str::from_utf8`, `{:?}` of a string, `String::push`, `Arc::clone`

Each such item says what it claims in its doc comment. Everything else is proved
from them, and from what Verus's own library states of the standard library.
