//! A full-text index for heap tuples: analysis, a query language, compressed
//! postings addressed by physical location, ranked search, and the upkeep of
//! an index on pages.

pub mod backlog;
pub mod baseline;
pub mod bitmap;
pub mod bytes;
pub mod chain;
pub mod combine;
pub mod cursor;
pub mod dict;
pub mod drive;
pub mod error;
pub mod grammar;
pub mod grammar_laws;
pub mod heap;
pub mod highlight;
pub mod index;
pub mod interval;
pub mod le;
pub mod leaf;
pub mod lexer;
pub mod load;
pub mod maintain;
pub mod merge;
pub mod meta;
pub mod numeral;
pub mod parser;
pub mod pattern;
pub mod pending;
pub mod plan;
pub mod plan_laws;
pub mod planner;
pub mod postings;
pub mod queries;
pub mod query;
pub mod query_laws;
pub mod rank;
pub mod registry;
pub mod report;
pub mod scan;
pub mod score;
pub mod search;
pub mod seen;
pub mod segment;
pub mod space;
pub mod span;
pub mod stream;
pub mod terms;
pub mod text;
pub mod tid;
pub mod tokenize;
pub mod varint;
pub mod windows;
pub mod wire;
pub mod words;

pub use error::QueryError;
pub use index::Index;
pub use merge::{Merge, MergeWriter, MergedPart};
pub use plan::{Plan, SortedTerms, TermSet};
pub use query::{Query, Slot};
pub use search::SearchBox;
pub use segment::{Segment, SegmentBuilder};
pub use tid::Tid;
pub use tokenize::Analyzer;
