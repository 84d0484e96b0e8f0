//! The benchmark report's tables: term classes by frequency, their sizes, and
//! numbers as they are printed.

use vstd::prelude::*;
use crate::grammar::number_text;
use crate::lexer::text_of;
use crate::parser::number_string;
use crate::postings::Encoding;
use crate::segment::{ClassStats, TermSize};

verus! {

/// Terms by how often they occur.
#[derive(Copy, Clone, Debug, PartialEq, Eq, PartialOrd, Ord, Structural)]
pub enum Class {
    /// In >= 1% of tuples.
    High,
    /// In >= 0.01% of tuples.
    Medium,
    /// Fewer.
    Rare,
}

/// The class of a term in `df` of `docs` tuples.
pub open spec fn spec_class(df: int, docs: int) -> Class {
    if df * 100 >= docs {
        Class::High
    } else if df * 10_000 >= docs {
        Class::Medium
    } else {
        Class::Rare
    }
}

/// The class of a term in `df` of `docs` tuples.
pub fn class_of(df: u64, docs: u64) -> (r: Class)
    ensures
        r == spec_class(df as int, docs as int),
{
    let (d, n): (u128, u128) = (df as u128, docs as u128);
    if d * 100 >= n {
        Class::High
    } else if d * 10_000 >= n {
        Class::Medium
    } else {
        Class::Rare
    }
}

/// One row of the size table.
#[derive(Copy, Clone, Debug, PartialEq, Eq, Structural)]
pub struct SizeRow {
    pub class: Class,
    pub encoding: Encoding,
    pub stats: ClassStats,
}

/// Whether a term belongs to a row.
pub open spec fn in_row(e: TermSize, docs: int, class: Class, encoding: Encoding) -> bool {
    spec_class(e.stats.postings as int, docs) == class && e.encoding == encoding
}

/// Terms, tuples and bytes of a row over the first `n` terms.
pub open spec fn row_sums(sizes: Seq<TermSize>, docs: int, class: Class, encoding: Encoding, n: int) -> (int, int, int)
    decreases n,
{
    if n <= 0 {
        (0, 0, 0)
    } else {
        let s = row_sums(sizes, docs, class, encoding, n - 1);
        let e = sizes[n - 1];
        if in_row(e, docs, class, encoding) {
            (s.0 + e.stats.terms, s.1 + e.stats.postings, s.2 + e.stats.bytes)
        } else {
            s
        }
    }
}

/// Terms, tuples and bytes of the first `n` terms.
pub open spec fn size_sums(sizes: Seq<TermSize>, n: int) -> (int, int, int)
    decreases n,
{
    if n <= 0 {
        (0, 0, 0)
    } else {
        let s = size_sums(sizes, n - 1);
        let e = sizes[n - 1];
        (s.0 + e.stats.terms, s.1 + e.stats.postings, s.2 + e.stats.bytes)
    }
}

/// The sizes add up to what can be counted.
pub open spec fn countable(sizes: Seq<TermSize>) -> bool {
    let s = size_sums(sizes, sizes.len() as int);
    s.0 <= u64::MAX && s.1 <= u64::MAX && s.2 <= u64::MAX
}

proof fn lemma_sums(sizes: Seq<TermSize>, docs: int, class: Class, encoding: Encoding, a: int, b: int)
    requires
        0 <= a <= b <= sizes.len(),
    ensures
        ({
            let (r, s, t) = (row_sums(sizes, docs, class, encoding, a), size_sums(sizes, a), size_sums(sizes, b));
            &&& 0 <= r.0 <= s.0 <= t.0
            &&& 0 <= r.1 <= s.1 <= t.1
            &&& 0 <= r.2 <= s.2 <= t.2
        }),
    decreases b,
{
    if a < b {
        lemma_sums(sizes, docs, class, encoding, a, b - 1);
    } else if b > 0 {
        lemma_sums(sizes, docs, class, encoding, a - 1, b - 1);
    }
}

/// The sizes of one class and encoding together.
pub fn row_of(sizes: &Vec<TermSize>, docs: u64, class: Class, encoding: Encoding) -> (r: SizeRow)
    requires
        countable(sizes@),
    ensures
        r.class == class,
        r.encoding == encoding,
        (r.stats.terms as int, r.stats.postings as int, r.stats.bytes as int) == row_sums(sizes@, docs as int, class, encoding, sizes@.len() as int),
{
    let mut stats: ClassStats = ClassStats { terms: 0, postings: 0, bytes: 0 };
    let mut i: usize = 0;
    while i < sizes.len()
        invariant
            countable(sizes@),
            i <= sizes@.len(),
            (stats.terms as int, stats.postings as int, stats.bytes as int) == row_sums(sizes@, docs as int, class, encoding, i as int),
        decreases sizes@.len() - i,
    {
        let e: TermSize = sizes[i];
        proof {
            lemma_sums(sizes@, docs as int, class, encoding, i + 1, sizes@.len() as int);
        }
        if class_of(e.stats.postings, docs) == class && e.encoding == encoding {
            stats = stats.plus(e.stats);
        }
        i = i + 1;
    }
    SizeRow { class, encoding, stats }
}

/// The classes in the order that tables list them.
pub open spec fn nth_class(k: int) -> Class {
    if k == 0 {
        Class::High
    } else if k == 1 {
        Class::Medium
    } else {
        Class::Rare
    }
}

/// The encodings in the order that tables list them.
pub open spec fn nth_encoding(k: int) -> Encoding {
    if k == 0 {
        Encoding::Singleton
    } else if k == 1 {
        Encoding::Sparse
    } else {
        Encoding::Groups
    }
}

/// Row `k` of the full table: by class, then by encoding.
pub open spec fn is_row(r: SizeRow, sizes: Seq<TermSize>, docs: int, k: int) -> bool {
    let n = sizes.len() as int;
    &&& r.class == nth_class(k / 3)
    &&& r.encoding == nth_encoding(k % 3)
    &&& (r.stats.terms as int, r.stats.postings as int, r.stats.bytes as int) == row_sums(sizes, docs, r.class, r.encoding, n)
}

/// The size of every class and encoding of a segment's terms, of which there
/// are `docs` tuples: nine rows, also those of no term.
pub fn size_table(sizes: &Vec<TermSize>, docs: u64) -> (r: Vec<SizeRow>)
    requires
        countable(sizes@),
    ensures
        r@.len() == 9,
        forall|k: int| 0 <= k < 9 ==> is_row(#[trigger] r@[k], sizes@, docs as int, k),
{
    let classes: Vec<Class> = vec![Class::High, Class::Medium, Class::Rare];
    let encodings: Vec<Encoding> = vec![Encoding::Singleton, Encoding::Sparse, Encoding::Groups];
    let mut out: Vec<SizeRow> = Vec::new();
    while out.len() < 9
        invariant
            countable(sizes@),
            classes@.len() == 3,
            encodings@.len() == 3,
            forall|k: int| 0 <= k < 3 ==> #[trigger] classes@[k] == nth_class(k),
            forall|k: int| 0 <= k < 3 ==> #[trigger] encodings@[k] == nth_encoding(k),
            out@.len() <= 9,
            forall|k: int| 0 <= k < out@.len() ==> is_row(#[trigger] out@[k], sizes@, docs as int, k),
        decreases 9 - out@.len(),
    {
        let k: usize = out.len();
        let row: SizeRow = row_of(sizes, docs, classes[k / 3], encodings[k % 3]);
        out.push(row);
    }
    out
}

/// The first `n` of the digits `s`, with a comma before every three that
/// follow.
pub open spec fn with_commas(s: Seq<char>, n: int) -> Seq<char>
    decreases n,
{
    if n <= 0 {
        Seq::empty()
    } else if n > 1 && (s.len() - (n - 1)) % 3 == 0 {
        with_commas(s, n - 1).push(',').push(s[n - 1])
    } else {
        with_commas(s, n - 1).push(s[n - 1])
    }
}

/// A number with its thousands set apart.
pub fn fmt_n(n: u64) -> (r: String)
    ensures
        r@ == with_commas(number_text(n as int), number_text(n as int).len() as int),
{
    let digits: Vec<char> = number_string(n);
    let len: usize = digits.len();
    let mut out: Vec<char> = Vec::new();
    let mut i: usize = 0;
    while i < len
        invariant
            len == digits@.len(),
            i <= len,
            out@ == with_commas(digits@, i as int),
        decreases len - i,
    {
        if i > 0 && (len - i) % 3 == 0 {
            out.push(',');
        }
        out.push(digits[i]);
        i = i + 1;
    }
    text_of(&out)
}

/// Each term is counted in one row: the nine rows add up to the whole.
pub proof fn rows_add_up(sizes: Seq<TermSize>, docs: int, n: int)
    requires
        0 <= n <= sizes.len(),
    ensures
        ({
            let row = |k: int| row_sums(sizes, docs, nth_class(k / 3), nth_encoding(k % 3), n);
            &&& size_sums(sizes, n).0 == row(0).0 + row(1).0 + row(2).0 + row(3).0 + row(4).0 + row(5).0 + row(6).0 + row(7).0 + row(8).0
            &&& size_sums(sizes, n).1 == row(0).1 + row(1).1 + row(2).1 + row(3).1 + row(4).1 + row(5).1 + row(6).1 + row(7).1 + row(8).1
            &&& size_sums(sizes, n).2 == row(0).2 + row(1).2 + row(2).2 + row(3).2 + row(4).2 + row(5).2 + row(6).2 + row(7).2 + row(8).2
        }),
    decreases n,
{
    if n > 0 {
        rows_add_up(sizes, docs, n - 1);
    }
}

/// A term is common if it is in one document of a hundred, and rare if it is
/// in less than one of ten thousand.
pub proof fn classes_go_by_share(df: int, docs: int)
    requires
        0 <= df,
        0 <= docs,
    ensures
        spec_class(df, docs) == Class::High <==> docs <= 100 * df,
        spec_class(df, docs) == Class::Rare <==> docs > 10_000 * df,
{
}

/// What the first `n` digits and their commas are: read from the end of the
/// whole, every fourth character is a comma.
proof fn lemma_commas(s: Seq<char>, n: int)
    requires
        0 <= n <= s.len(),
    ensures
        ({
            let r = with_commas(s, n);
            let m = s.len() - n;
            &&& n > 0 ==> r.len() == n + (s.len() - 1) / 3 - m / 3
            &&& n == 0 ==> r.len() == 0
            &&& forall|i: int| 0 <= i < r.len() ==> {
                let j = (r.len() - 1 - i) + m + m / 3;
                #[trigger] r[i] == if j % 4 == 3 { ',' } else { s[s.len() - 1 - (j - j / 4)] }
            }
        }),
    decreases n,
{
    if n > 0 {
        lemma_commas(s, n - 1);
        let (p, r) = (with_commas(s, n - 1), with_commas(s, n));
        let m = s.len() - n;
        assert forall|i: int| 0 <= i < r.len() implies {
            let j = (r.len() - 1 - i) + m + m / 3;
            #[trigger] r[i] == if j % 4 == 3 { ',' } else { s[s.len() - 1 - (j - j / 4)] }
        } by {
            if i < p.len() {
                assert(r[i] == p[i]);
            }
        }
    }
}

/// A number's thousands are set apart: read from its end, every fourth
/// character is a comma and the others are its digits.
pub proof fn thousands_are_set_apart(s: Seq<char>, j: int)
    requires
        s.len() > 0,
        0 <= j < s.len() + (s.len() - 1) / 3,
    ensures
        ({
            let r = with_commas(s, s.len() as int);
            &&& r.len() == s.len() + (s.len() - 1) / 3
            &&& r[r.len() - 1 - j] == if j % 4 == 3 { ',' } else { s[s.len() - 1 - (j - j / 4)] }
        }),
{
    lemma_commas(s, s.len() as int);
}

} // verus!
