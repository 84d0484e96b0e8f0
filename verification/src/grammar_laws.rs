//! Queries are read as they are written.

use vstd::prelude::*;
use vstd::arithmetic::power::{lemma_pow0, lemma_pow1, lemma_pow_adds, pow};
use crate::grammar::{
    and_from, at_least, boost_end, boost_ok, boosted_from, choices, flushed, fuzz_of, inside_number, is_boost_char, is_near, is_then, item_added, lex_from,
    list_from, near_from, near_rest, no_lead, no_trail, number_text, or_from, phrase_from, phrase_of_terms, primary_from, threshold, tokens, white_space,
    phrase_query, query_of, slots_of, word_query, word_token, ErrorView, ItemView, TokView,
};
use crate::numeral::{all_digits, decimal_of, digits_end, nat_of, nat_upto, whole_of, Decimal};
use crate::plan_laws::placed;
use crate::planner::plan_of;
use crate::query::{satisfied, Doc, QueryView, SlotView};
use crate::query_laws::{at_least_counts, satisfied_items};
use crate::text::is_digit;
use crate::tokenize::{analysis_goes_word_by_word, fold, is_break, is_plain_word, plain_word_is_one_term, terms_of};

verus! {

// ---------------------------------------------------------------------------
// Numbers
// ---------------------------------------------------------------------------

proof fn lemma_number_text(n: int)
    requires
        0 <= n,
    ensures
        number_text(n).len() >= 1,
        all_digits(number_text(n)),
        nat_of(number_text(n)) == n,
    decreases n,
{
    let s = number_text(n);
    if n < 10 {
        let c = (48 + n) as u8 as char;
        assert(c as u32 == 48 + n);
        assert(s[0] == c);
        assert(nat_upto(s, 0) == 0);
        assert(nat_upto(s, 1) == 10 * nat_upto(s, 0) + (c as u32 - 48));
    } else {
        lemma_number_text(n / 10);
        let p = number_text(n / 10);
        let c = (48 + n % 10) as u8 as char;
        assert(c as u32 == 48 + n % 10);
        assert(s == p.push(c));
        lemma_nat_prefix(p, s, p.len() as int);
        assert(s[p.len() as int] == c);
        assert forall|i: int| 0 <= i < s.len() implies is_digit(#[trigger] s[i]) by {
            if i < p.len() {
                assert(s[i] == p[i]);
            }
        }
    }
}

proof fn lemma_nat_prefix(p: Seq<char>, s: Seq<char>, n: int)
    requires
        0 <= n <= p.len() <= s.len(),
        forall|i: int| 0 <= i < p.len() ==> p[i] == #[trigger] s[i],
    ensures
        nat_upto(p, n) == nat_upto(s, n),
    decreases n,
{
    if n > 0 {
        lemma_nat_prefix(p, s, n - 1);
        assert(p[n - 1] == s[n - 1]);
    }
}

proof fn lemma_digits_end(s: Seq<char>, i: int, e: int)
    requires
        0 <= i <= e <= s.len(),
        forall|k: int| i <= k < e ==> is_digit(#[trigger] s[k]),
        e < s.len() ==> !is_digit(s[e]),
    ensures
        digits_end(s, i) == e,
    decreases e - i,
{
    if i < e {
        lemma_digits_end(s, i + 1, e);
    }
}

/// A number's decimal digits are read as that number, up to the limit.
pub proof fn numbers_read_back(n: int, max: int)
    requires
        0 <= n,
    ensures
        whole_of(number_text(n), max) == if n <= max { Some(n) } else { None },
{
    lemma_number_text(n);
    assert(is_digit(number_text(n)[0]));
}

proof fn lemma_decimal_text(n: int)
    requires
        0 <= n,
    ensures
        decimal_of(number_text(n)) == Some(Decimal { negative: false, digits: number_text(n), power: 0 }),
{
    let s = number_text(n);
    lemma_number_text(n);
    assert(is_digit(s[0]));
    lemma_digits_end(s, 0, s.len() as int);
    assert(digits_end(s, s.len() as int) == s.len());
    assert(s.subrange(0, s.len() as int) + s.subrange(s.len() as int, s.len() as int) =~= s);
}

/// A boost is a number from 0 to 10000.
pub proof fn boosts_end_at_ten_thousand(n: int)
    requires
        0 <= n,
    ensures
        boost_ok(number_text(n)) <==> n <= 10000,
{
    lemma_decimal_text(n);
    lemma_number_text(n);
    lemma_pow_adds(10, 2, 2);
    lemma_pow_adds(10, 1, 1);
    lemma_pow1(10);
    assert(pow(10, 2) == 100);
    assert(pow(10, 4) == 100 * 100);
}

/// A percentage is rounded up: the smallest number of items that is no less
/// than that part of `len`. Above 100% it is refused.
pub proof fn percentages_round_up(p: int, len: int)
    requires
        0 <= p,
        0 <= len,
    ensures
        p <= 100 ==> match threshold(number_text(p).push('%'), len) {
            Ok(v) => 0 <= v && 100 * v >= p * len && 100 * (v - 1) < p * len,
            Err(e) => false,
        },
        p > 100 ==> threshold(number_text(p).push('%'), len) is Err,
{
    let s = number_text(p);
    let t = s.push('%');
    assert(t.subrange(0, t.len() - 1) =~= s);
    lemma_decimal_text(p);
    lemma_number_text(p);
    lemma_pow_adds(10, 1, 1);
    lemma_pow1(10);
    lemma_pow0(10);
    assert(pow(10, 2) == 100);
    let x = p * len;
    assert(x >= 0) by (nonlinear_arith)
        requires
            x == p * len,
            0 <= p,
            0 <= len,
    ;
    assert(p * pow(10, 0) * len == x);
    if p <= 100 {
        let v = threshold(t, len)->Ok_0;
        assert(v == (x + 99) / 100);
    }
}

/// A number of items is taken as it is written.
pub proof fn counts_are_taken_as_written(n: int, len: int)
    requires
        0 <= n <= u64::MAX,
    ensures
        threshold(number_text(n), len) == Ok::<int, ErrorView>(n),
{
    numbers_read_back(n, u64::MAX as int);
    lemma_number_text(n);
    let s = number_text(n);
    assert(is_digit(s[s.len() - 1]));
}

// ---------------------------------------------------------------------------
// Tokens
// ---------------------------------------------------------------------------

/// A visible character of ASCII with no meaning of its own.
pub open spec fn is_word_char(c: char) -> bool {
    &&& 0x21 <= c as u32 <= 0x7E
    &&& c != '"' && c != '(' && c != ')' && c != '[' && c != ']' && c != '^' && c != ','
}

pub open spec fn is_keyword(w: Seq<char>) -> bool {
    ||| w == seq!['A', 'N', 'D']
    ||| w == seq!['O', 'R']
    ||| w == seq!['N', 'O', 'T']
    ||| w == seq!['T', 'H', 'E', 'N']
    ||| w == seq!['N', 'E', 'A', 'R']
    ||| w.len() >= 5 && w.subrange(0, 5) == seq!['T', 'H', 'E', 'N', '/']
    ||| w.len() >= 5 && w.subrange(0, 5) == seq!['N', 'E', 'A', 'R', '/']
}

/// A word that stands for itself.
pub open spec fn is_bare_word(w: Seq<char>) -> bool {
    &&& w.len() > 0
    &&& w[0] != '-'
    &&& !is_keyword(w)
    &&& forall|i: int| 0 <= i < w.len() ==> is_word_char(#[trigger] w[i])
}

/// A character inside quotes, with a backslash where it needs one.
pub open spec fn quoted_char(c: char) -> Seq<char> {
    if c == '"' || c == '\\' || c == '[' || c == ']' || c == '_' {
        seq!['\\', c]
    } else {
        seq![c]
    }
}

pub open spec fn quoted_word(w: Seq<char>) -> Seq<char>
    decreases w.len(),
{
    if w.len() == 0 {
        Seq::empty()
    } else {
        quoted_char(w[0]) + quoted_word(w.drop_first())
    }
}

/// A word inside quotes: visible characters of ASCII, without a comma.
pub open spec fn is_quotable(w: Seq<char>) -> bool {
    w.len() > 0 && forall|i: int| 0 <= i < w.len() ==> 0x21 <= (#[trigger] w[i]) as u32 <= 0x7E && w[i] != ','
}

/// Words inside quotes, each behind a space.
pub open spec fn words_text(ws: Seq<Seq<char>>) -> Seq<char>
    decreases ws.len(),
{
    if ws.len() == 0 {
        Seq::empty()
    } else {
        seq![' '] + quoted_word(ws[0]) + words_text(ws.drop_first())
    }
}

pub open spec fn item_text(item: ItemView) -> Seq<char> {
    match item {
        ItemView::Word(w) => seq![' '] + quoted_word(w),
        ItemView::Gap => seq![' ', '_'],
        ItemView::Alts(ws) => seq![' ', '['] + words_text(ws) + seq![']'],
    }
}

pub open spec fn items_text(items: Seq<ItemView>) -> Seq<char>
    decreases items.len(),
{
    if items.len() == 0 {
        Seq::empty()
    } else {
        item_text(items[0]) + items_text(items.drop_first())
    }
}

pub open spec fn item_writable(item: ItemView) -> bool {
    match item {
        ItemView::Word(w) => is_quotable(w),
        ItemView::Gap => true,
        ItemView::Alts(ws) => ws.len() > 0 && forall|i: int| 0 <= i < ws.len() ==> is_quotable(#[trigger] ws[i]),
    }
}

/// How a token is written: behind a space, a boost right behind its item.
pub open spec fn token_text(t: TokView) -> Seq<char> {
    match t {
        TokView::LParen => seq![' ', '('],
        TokView::RParen => seq![' ', ')'],
        TokView::LBracket => seq![' ', '['],
        TokView::RBracket => seq![' ', ']'],
        TokView::Neg => seq![' ', 'N', 'O', 'T'],
        TokView::And => seq![' ', 'A', 'N', 'D'],
        TokView::Or => seq![' ', 'O', 'R'],
        TokView::Near(n, ordered) => seq![' '] + if ordered { seq!['T', 'H', 'E', 'N', '/'] } else { seq!['N', 'E', 'A', 'R', '/'] } + number_text(n),
        TokView::Boost(n) => seq!['^'] + n,
        TokView::Phrase(items, slop) => seq![' ', '"'] + items_text(items) + seq!['"'] + if slop == 0 { Seq::empty() } else { seq!['~'] + number_text(slop) },
        TokView::Word(w) => seq![' '] + w,
    }
}

/// Distances and slops fit a `u32`, a boost is a number up to 10000, words
/// stand for themselves.
pub open spec fn token_writable(t: TokView) -> bool {
    match t {
        TokView::Near(n, ordered) => 0 <= n <= u32::MAX,
        TokView::Boost(n) => boost_ok(n) && forall|i: int| 0 <= i < n.len() ==> is_boost_char(#[trigger] n[i]),
        TokView::Phrase(items, slop) => 0 <= slop <= u32::MAX && items.len() > 0 && forall|i: int| 0 <= i < items.len() ==> item_writable(#[trigger] items[i]),
        TokView::Word(w) => is_bare_word(w),
        _ => true,
    }
}

pub open spec fn text_of(ts: Seq<TokView>) -> Seq<char>
    decreases ts.len(),
{
    if ts.len() == 0 {
        Seq::empty()
    } else {
        text_of(ts.drop_last()) + token_text(ts.last())
    }
}

/// `s` stands at index `i` of `cs`.
spec fn holds_at(cs: Seq<char>, i: int, s: Seq<char>) -> bool {
    0 <= i && i + s.len() <= cs.len() && s == cs.subrange(i, i + s.len())
}

proof fn lemma_holds(cs: Seq<char>, i: int, s: Seq<char>, k: int)
    requires
        holds_at(cs, i, s),
        0 <= k < s.len(),
    ensures
        cs[i + k] == s[k],
{
}

proof fn lemma_holds_split(cs: Seq<char>, i: int, a: Seq<char>, b: Seq<char>)
    requires
        holds_at(cs, i, a + b),
    ensures
        holds_at(cs, i, a),
        holds_at(cs, i + a.len(), b),
{
    let s = a + b;
    assert(a =~= cs.subrange(i, i + a.len())) by {
        assert forall|k: int| 0 <= k < a.len() implies a[k] == cs[i + k] by {
            assert(s[k] == a[k]);
        }
    }
    assert(b =~= cs.subrange(i + a.len(), i + a.len() + b.len())) by {
        assert forall|k: int| 0 <= k < b.len() implies b[k] == cs[i + a.len() + k] by {
            assert(s[a.len() + k] == b[k]);
        }
    }
}

proof fn lemma_lex_space(cs: Seq<char>, i: int, pend: Seq<char>, done: Seq<TokView>, before: Seq<TokView>)
    requires
        0 <= i < cs.len(),
        cs[i] == ' ',
        flushed(pend, done) == Ok::<Seq<TokView>, ErrorView>(before),
    ensures
        lex_from(cs, i, pend, done) == lex_from(cs, i + 1, Seq::empty(), before),
{
}

proof fn lemma_lex_word(cs: Seq<char>, i: int, w: Seq<char>, word: Seq<char>, toks: Seq<TokView>)
    requires
        holds_at(cs, i, w),
        forall|k: int| 0 <= k < w.len() ==> is_word_char(#[trigger] w[k]),
        word.len() > 0 || (w.len() > 0 && w[0] != '-'),
    ensures
        lex_from(cs, i, word, toks) == lex_from(cs, i + w.len(), word + w, toks),
    decreases w.len(),
{
    if w.len() > 0 {
        let rest = w.drop_first();
        assert(seq![w[0]] + rest =~= w);
        lemma_holds_split(cs, i, seq![w[0]], rest);
        lemma_holds(cs, i, w, 0);
        assert(is_word_char(w[0]));
        assert(!white_space(cs[i]));
        assert(lex_from(cs, i, word, toks) == lex_from(cs, i + 1, word.push(w[0]), toks));
        assert forall|k: int| 0 <= k < rest.len() implies is_word_char(#[trigger] rest[k]) by {
            assert(rest[k] == w[k + 1]);
        }
        lemma_lex_word(cs, i + 1, rest, word.push(w[0]), toks);
        assert(word.push(w[0]) + rest =~= word + w);
    } else {
        assert(word + w =~= word);
    }
}

/// The word holds a `_`.
spec fn has_gap_sign(w: Seq<char>) -> bool {
    exists|i: int| 0 <= i < w.len() && #[trigger] w[i] == '_'
}

proof fn lemma_quoted_len(w: Seq<char>)
    ensures
        quoted_word(w).len() >= w.len(),
    decreases w.len(),
{
    if w.len() > 0 {
        lemma_quoted_len(w.drop_first());
    }
}

proof fn lemma_phrase_word(
    cs: Seq<char>,
    i: int,
    w: Seq<char>,
    word: Seq<char>,
    escaped: bool,
    items: Seq<ItemView>,
    alts: Option<Seq<Seq<char>>>,
)
    requires
        holds_at(cs, i, quoted_word(w)),
        forall|k: int| 0 <= k < w.len() ==> 0x21 <= (#[trigger] w[k]) as u32 <= 0x7E && w[k] != ',',
    ensures
        phrase_from(cs, i, word, escaped, items, alts) == phrase_from(
            cs,
            i + quoted_word(w).len(),
            word + w,
            escaped || has_gap_sign(w),
            items,
            alts,
        ),
    decreases w.len(),
{
    if w.len() > 0 {
        let rest = w.drop_first();
        let c = w[0];
        let head = quoted_char(c);
        assert(0x21 <= c as u32 <= 0x7E && c != ',');
        lemma_holds_split(cs, i, head, quoted_word(rest));
        lemma_holds(cs, i, head, 0);
        assert(!white_space(cs[i]));
        if head.len() == 2 {
            lemma_holds(cs, i, head, 1);
        }
        assert(phrase_from(cs, i, word, escaped, items, alts) == phrase_from(cs, i + head.len(), word.push(c), escaped || c == '_', items, alts));
        assert forall|k: int| 0 <= k < rest.len() implies 0x21 <= (#[trigger] rest[k]) as u32 <= 0x7E && rest[k] != ',' by {
            assert(rest[k] == w[k + 1]);
        }
        lemma_phrase_word(cs, i + head.len(), rest, word.push(c), escaped || c == '_', items, alts);
        assert(word.push(c) + rest =~= word + w);
        assert(has_gap_sign(w) == (c == '_' || has_gap_sign(rest))) by {
            if has_gap_sign(w) && c != '_' {
                let k = choose|k: int| 0 <= k < w.len() && #[trigger] w[k] == '_';
                assert(rest[k - 1] == '_');
            }
            if has_gap_sign(rest) {
                let k = choose|k: int| 0 <= k < rest.len() && #[trigger] rest[k] == '_';
                assert(w[k + 1] == '_');
            }
            if c == '_' {
                assert(w[0] == '_');
            }
        }
    } else {
        assert(word + w =~= word);
        assert(!has_gap_sign(w));
    }
}

/// The words of a choice are read one by one.
proof fn lemma_choice_words(
    cs: Seq<char>,
    i: int,
    ws: Seq<Seq<char>>,
    word: Seq<char>,
    escaped: bool,
    items: Seq<ItemView>,
    a: Seq<Seq<char>>,
) -> (r: (Seq<char>, bool, Seq<Seq<char>>))
    requires
        holds_at(cs, i, words_text(ws)),
        forall|k: int| 0 <= k < ws.len() ==> is_quotable(#[trigger] ws[k]),
    ensures
        phrase_from(cs, i, word, escaped, items, Some(a)) == phrase_from(cs, i + words_text(ws).len(), r.0, r.1, items, Some(r.2)),
        item_added(r.0, r.1, items, Some(r.2)) == (items, Some(item_added(word, escaped, items, Some(a)).1->0 + ws)),
    decreases ws.len(),
{
    let b = item_added(word, escaped, items, Some(a)).1->0;
    if ws.len() == 0 {
        assert(b + ws =~= b);
        (word, escaped, a)
    } else {
        let w = ws[0];
        let rest = ws.drop_first();
        assert(is_quotable(w));
        lemma_holds_split(cs, i, seq![' '] + quoted_word(w), words_text(rest));
        lemma_holds_split(cs, i, seq![' '], quoted_word(w));
        lemma_holds(cs, i, seq![' '], 0);
        assert(white_space(cs[i]));
        assert(phrase_from(cs, i, word, escaped, items, Some(a)) == phrase_from(cs, i + 1, Seq::empty(), false, items, Some(b)));
        lemma_phrase_word(cs, i + 1, w, Seq::empty(), false, items, Some(b));
        assert(Seq::<char>::empty() + w =~= w);
        let j = i + 1 + quoted_word(w).len();
        assert forall|k: int| 0 <= k < rest.len() implies is_quotable(#[trigger] rest[k]) by {
            assert(rest[k] == ws[k + 1]);
        }
        let r = lemma_choice_words(cs, j, rest, w, has_gap_sign(w), items, b);
        assert(b.push(w) + rest =~= b + ws);
        r
    }
}

/// The items of a phrase are read one by one.
proof fn lemma_phrase_items(cs: Seq<char>, i: int, more: Seq<ItemView>, word: Seq<char>, escaped: bool, items: Seq<ItemView>) -> (r: (
    Seq<char>,
    bool,
    Seq<ItemView>,
))
    requires
        holds_at(cs, i, items_text(more)),
        forall|k: int| 0 <= k < more.len() ==> item_writable(#[trigger] more[k]),
    ensures
        phrase_from(cs, i, word, escaped, items, None) == phrase_from(cs, i + items_text(more).len(), r.0, r.1, r.2, None),
        item_added(r.0, r.1, r.2, None) == (item_added(word, escaped, items, None).0 + more, None::<Seq<Seq<char>>>),
    decreases more.len(),
{
    let b = item_added(word, escaped, items, None).0;
    if more.len() == 0 {
        assert(b + more =~= b);
        (word, escaped, items)
    } else {
        let item = more[0];
        let rest = more.drop_first();
        assert(item_writable(item));
        lemma_holds_split(cs, i, item_text(item), items_text(rest));
        let j = i + item_text(item).len();
        assert forall|k: int| 0 <= k < rest.len() implies item_writable(#[trigger] rest[k]) by {
            assert(rest[k] == more[k + 1]);
        }
        assert(b.push(item) + rest =~= b + more);
        lemma_holds(cs, i, item_text(item), 0);
        assert(cs[i] == ' ');
        assert(white_space(cs[i]));
        assert(phrase_from(cs, i, word, escaped, items, None) == phrase_from(cs, i + 1, Seq::empty(), false, b, None));
        match item {
            ItemView::Word(w) => {
                lemma_holds_split(cs, i, seq![' '], quoted_word(w));
                lemma_phrase_word(cs, i + 1, w, Seq::empty(), false, b, None);
                assert(Seq::<char>::empty() + w =~= w);
                if w =~= seq!['_'] {
                    assert(w[0] == '_');
                }
                lemma_phrase_items(cs, j, rest, w, has_gap_sign(w), b)
            },
            ItemView::Gap => {
                lemma_holds(cs, i, item_text(item), 1);
                assert(cs[i + 1] == '_');
                assert(!white_space(cs[i + 1]));
                let w = Seq::<char>::empty().push('_');
                assert(w =~= seq!['_']);
                assert(phrase_from(cs, i + 1, Seq::empty(), false, b, None) == phrase_from(cs, i + 2, w, false, b, None));
                lemma_phrase_items(cs, j, rest, w, false, b)
            },
            ItemView::Alts(ws) => {
                lemma_holds_split(cs, i, seq![' ', '['] + words_text(ws), seq![']']);
                lemma_holds_split(cs, i, seq![' ', '['], words_text(ws));
                lemma_holds(cs, i, seq![' ', '['], 1);
                lemma_holds(cs, j - 1, seq![']'], 0);
                assert(phrase_from(cs, i + 1, Seq::empty(), false, b, None) == phrase_from(cs, i + 2, Seq::empty(), false, b, Some(Seq::empty())));
                let r = lemma_choice_words(cs, i + 2, ws, Seq::empty(), false, b, Seq::empty());
                assert(Seq::<Seq<char>>::empty() + ws =~= ws);
                assert(phrase_from(cs, j - 1, r.0, r.1, b, Some(r.2)) == phrase_from(cs, j, Seq::empty(), false, b.push(item), None));
                lemma_phrase_items(cs, j, rest, Seq::empty(), false, b.push(item))
            },
        }
    }
}

proof fn lemma_boost_end(cs: Seq<char>, i: int, e: int)
    requires
        0 <= i <= e <= cs.len(),
        forall|k: int| i <= k < e ==> is_boost_char(#[trigger] cs[k]),
        e < cs.len() ==> !is_boost_char(cs[e]),
    ensures
        boost_end(cs, i) == e,
    decreases e - i,
{
    if i < e {
        lemma_boost_end(cs, i + 1, e);
    }
}

/// A phrase is read as it is written.
proof fn lemma_lex_phrase(cs: Seq<char>, i: int, items: Seq<ItemView>, slop: int, before: Seq<TokView>)
    requires
        token_writable(TokView::Phrase(items, slop)),
        0 <= i,
        holds_at(cs, i, seq!['"'] + items_text(items) + seq!['"'] + if slop == 0 { Seq::empty() } else { seq!['~'] + number_text(slop) }),
        ({
            let e = i + 2 + items_text(items).len() + if slop == 0 { 0 } else { 1 + number_text(slop).len() as int };
            e < cs.len() ==> cs[e] == ' ' || cs[e] == '^'
        }),
    ensures
        ({
            let e = i + 2 + items_text(items).len() + if slop == 0 { 0 } else { 1 + number_text(slop).len() as int };
            lex_from(cs, i, Seq::empty(), before) == lex_from(cs, e, Seq::empty(), before.push(TokView::Phrase(items, slop)))
        }),
{
    let tail = if slop == 0 { Seq::empty() } else { seq!['~'] + number_text(slop) };
    let j = i + 2 + items_text(items).len();
    let body = items_text(items);
    lemma_holds_split(cs, i, seq!['"'] + body + seq!['"'], tail);
    lemma_holds_split(cs, i, seq!['"'] + body, seq!['"']);
    lemma_holds_split(cs, i, seq!['"'], body);
    lemma_holds(cs, i, seq!['"'], 0);
    lemma_holds(cs, j - 1, seq!['"'], 0);
    let r = lemma_phrase_items(cs, i + 1, items, Seq::empty(), false, Seq::empty());
    assert(Seq::<ItemView>::empty() + items =~= items);
    assert(phrase_from(cs, j - 1, r.0, r.1, r.2, None) == Ok::<(Seq<ItemView>, int), ErrorView>((items, j)));
    if slop == 0 {
    } else {
        let n = number_text(slop);
        lemma_number_text(slop);
        numbers_read_back(slop, u32::MAX as int);
        lemma_holds_split(cs, j, seq!['~'], n);
        lemma_holds(cs, j, seq!['~'], 0);
        let e = j + 1 + n.len();
        assert forall|k: int| j + 1 <= k < e implies is_digit(#[trigger] cs[k]) by {
            lemma_holds(cs, j + 1, n, k - j - 1);
            assert(is_digit(n[k - j - 1]));
        }
        lemma_digits_end(cs, j + 1, e);
        assert(cs.subrange(j + 1, e) == n);
    }
}

proof fn lemma_bare_token(w: Seq<char>)
    requires
        is_bare_word(w),
    ensures
        word_token(w) == Ok::<TokView, ErrorView>(TokView::Word(w)),
{
    lemma_word_token(w);
}

proof fn lemma_word_token(w: Seq<char>)
    requires
        !is_keyword(w),
    ensures
        word_token(w) == Ok::<TokView, ErrorView>(TokView::Word(w)),
{
    if w.len() >= 5 && w[4] == '/' {
        let h = w.subrange(0, 4);
        let f = w.subrange(0, 5);
        if is_then(h) {
            assert(h[0] == 'T' && h[1] == 'H' && h[2] == 'E' && h[3] == 'N');
            assert(f =~= seq!['T', 'H', 'E', 'N', '/']);
        }
        if is_near(h) {
            assert(h[0] == 'N' && h[1] == 'E' && h[2] == 'A' && h[3] == 'R');
            assert(f =~= seq!['N', 'E', 'A', 'R', '/']);
        }
    }
}

proof fn lemma_near_token(n: int, ordered: bool)
    requires
        0 <= n <= u32::MAX,
    ensures
        ({
            let w = (if ordered { seq!['T', 'H', 'E', 'N', '/'] } else { seq!['N', 'E', 'A', 'R', '/'] }) + number_text(n);
            &&& word_token(w) == Ok::<TokView, ErrorView>(TokView::Near(n, ordered))
            &&& forall|k: int| 0 <= k < w.len() ==> is_word_char(#[trigger] w[k])
            &&& w[0] != '-'
        }),
{
    let head = if ordered { seq!['T', 'H', 'E', 'N', '/'] } else { seq!['N', 'E', 'A', 'R', '/'] };
    let d = number_text(n);
    let w = head + d;
    lemma_number_text(n);
    numbers_read_back(n, u32::MAX as int);
    assert(w.subrange(5, w.len() as int) =~= d);
    let h = w.subrange(0, 4);
    assert(h =~= head.subrange(0, 4));
    assert(w.len() >= 6);
    assert(h[0] == head[0]);
    if ordered {
        assert(is_then(h));
    } else {
        assert(is_near(h));
        assert(!is_then(h)) by {
            assert(h[0] == 'N');
        }
    }
    assert(w[4] == '/');
    assert forall|k: int| 0 <= k < w.len() implies is_word_char(#[trigger] w[k]) by {
        if k >= 5 {
            assert(w[k] == d[k - 5]);
            assert(is_digit(d[k - 5]));
        }
    }
}

/// The text of the first tokens leads the text of all.
proof fn lemma_text_leads(ts: Seq<TokView>, k: int)
    requires
        0 <= k <= ts.len(),
    ensures
        holds_at(text_of(ts), 0, text_of(ts.take(k))),
        k < ts.len() ==> holds_at(text_of(ts), text_of(ts.take(k)).len() as int, token_text(ts[k])),
        k < ts.len() ==> text_of(ts.take(k + 1)).len() == text_of(ts.take(k)).len() + token_text(ts[k]).len(),
    decreases ts.len() - k,
{
    let all = text_of(ts);
    if k == ts.len() {
        assert(ts.take(k) =~= ts);
        assert(all =~= all.subrange(0, all.len() as int));
    } else {
        lemma_text_leads(ts, k + 1);
        let more = ts.take(k + 1);
        assert(more.drop_last() =~= ts.take(k));
        assert(more.last() == ts[k]);
        lemma_holds_split(all, 0, text_of(ts.take(k)), token_text(ts[k]));
    }
}

/// A token's text starts with a space or a boost's sign, holds more than that,
/// and does not end with a space.
proof fn lemma_token_text(t: TokView)
    requires
        token_writable(t),
    ensures
        token_text(t).len() >= 2,
        token_text(t)[0] == if t is Boost { '^' } else { ' ' },
        !white_space(token_text(t).last()),
{
    let s = token_text(t);
    match t {
        TokView::Near(n, ordered) => {
            lemma_number_text(n);
            let d = number_text(n);
            assert(s.last() == d.last());
            assert(is_digit(d[d.len() - 1]));
        },
        TokView::Boost(n) => {
            assert(n.len() > 0) by {
                if n.len() == 0 {
                    assert(decimal_of(n) is Some);
                    assert(digits_end(n, 0) == 0);
                    assert(n.subrange(0, 0) + n.subrange(0, 0) =~= Seq::empty());
                }
            }
            assert(s.last() == n.last());
            assert(is_boost_char(n[n.len() - 1]));
        },
        TokView::Phrase(items, slop) => {
            if slop != 0 {
                lemma_number_text(slop);
                let d = number_text(slop);
                assert(s.last() == d.last());
                assert(is_digit(d[d.len() - 1]));
            } else {
                assert(s.last() == '"');
            }
        },
        TokView::Word(w) => {
            assert(s.last() == w.last());
            assert(is_word_char(w[w.len() - 1]));
        },
        _ => {},
    }
}

/// A word behind a space is the word being read.
proof fn lemma_lex_spaced(cs: Seq<char>, i: int, w: Seq<char>, pend: Seq<char>, done: Seq<TokView>, before: Seq<TokView>)
    requires
        holds_at(cs, i, seq![' '] + w),
        flushed(pend, done) == Ok::<Seq<TokView>, ErrorView>(before),
        w.len() > 0,
        w[0] != '-',
        forall|k: int| 0 <= k < w.len() ==> is_word_char(#[trigger] w[k]),
    ensures
        lex_from(cs, i, pend, done) == lex_from(cs, i + 1 + w.len(), w, before),
{
    lemma_holds_split(cs, i, seq![' '], w);
    lemma_holds(cs, i, seq![' '], 0);
    lemma_lex_space(cs, i, pend, done, before);
    lemma_lex_word(cs, i + 1, w, Seq::empty(), before);
    assert(Seq::<char>::empty() + w =~= w);
}

/// The token's word, if it is written as one.
spec fn token_word(t: TokView) -> Seq<char> {
    match t {
        TokView::Near(n, ordered) => (if ordered { seq!['T', 'H', 'E', 'N', '/'] } else { seq!['N', 'E', 'A', 'R', '/'] }) + number_text(n),
        TokView::Word(w) => w,
        TokView::Neg => seq!['N', 'O', 'T'],
        TokView::And => seq!['A', 'N', 'D'],
        _ => seq!['O', 'R'],
    }
}

proof fn lemma_token_word(t: TokView)
    requires
        token_writable(t),
        t is Near || t is Word || t is Neg || t is And || t is Or,
    ensures
        token_text(t) == seq![' '] + token_word(t),
        token_word(t).len() > 0,
        token_word(t)[0] != '-',
        word_token(token_word(t)) == Ok::<TokView, ErrorView>(t),
        forall|k: int| 0 <= k < token_word(t).len() ==> is_word_char(#[trigger] token_word(t)[k]),
{
    let w = token_word(t);
    assert(token_text(t) =~= seq![' '] + w);
    match t {
        TokView::Near(n, ordered) => {
            lemma_near_token(n, ordered);
            if ordered {
                assert(w == seq!['T', 'H', 'E', 'N', '/'] + number_text(n));
            } else {
                assert(w == seq!['N', 'E', 'A', 'R', '/'] + number_text(n));
            }
            assert forall|k: int| 0 <= k < w.len() implies is_word_char(#[trigger] w[k]) by {
                let d = number_text(n);
                lemma_number_text(n);
                if k >= 5 {
                    assert(w[k] == d[k - 5]);
                    assert(is_digit(d[k - 5]));
                }
            }
        },
        TokView::Word(v) => {
            lemma_bare_token(v);
        },
        TokView::Neg => {
            assert(w[0] == 'N' && w[1] == 'O' && w[2] == 'T' && w.len() == 3);
        },
        TokView::And => {
            assert(w[0] == 'A' && w[1] == 'N' && w[2] == 'D' && w.len() == 3);
        },
        _ => {
            assert(w[0] == 'O' && w[1] == 'R' && w.len() == 2);
        },
    }
}

proof fn lemma_lex_boost(cs: Seq<char>, i: int, n: Seq<char>, pend: Seq<char>, done: Seq<TokView>, before: Seq<TokView>)
    requires
        token_writable(TokView::Boost(n)),
        holds_at(cs, i, seq!['^'] + n),
        flushed(pend, done) == Ok::<Seq<TokView>, ErrorView>(before),
        0 < i && !white_space(cs[i - 1]),
        i + 1 + n.len() < cs.len() ==> cs[i + 1 + n.len()] == ' ' || cs[i + 1 + n.len()] == '^',
    ensures
        lex_from(cs, i, pend, done) == lex_from(cs, i + 1 + n.len(), Seq::empty(), before.push(TokView::Boost(n))),
{
    let e = i + 1 + n.len();
    lemma_holds_split(cs, i, seq!['^'], n);
    lemma_holds(cs, i, seq!['^'], 0);
    assert forall|x: int| i + 1 <= x < e implies is_boost_char(#[trigger] cs[x]) by {
        lemma_holds(cs, i + 1, n, x - i - 1);
        assert(is_boost_char(n[x - i - 1]));
    }
    lemma_boost_end(cs, i + 1, e);
    assert(cs.subrange(i + 1, e) == n);
}

proof fn lemma_lex_bracket(cs: Seq<char>, i: int, t: TokView, pend: Seq<char>, done: Seq<TokView>, before: Seq<TokView>)
    requires
        t is LParen || t is RParen || t is LBracket || t is RBracket,
        holds_at(cs, i, token_text(t)),
        flushed(pend, done) == Ok::<Seq<TokView>, ErrorView>(before),
    ensures
        lex_from(cs, i, pend, done) == lex_from(cs, i + 2, Seq::empty(), before.push(t)),
{
    let s = token_text(t);
    lemma_holds(cs, i, s, 0);
    lemma_holds(cs, i, s, 1);
    lemma_lex_space(cs, i, pend, done, before);
    let c = cs[i + 1];
    assert(c == s[1]);
    assert(flushed(Seq::empty(), before) == Ok::<Seq<TokView>, ErrorView>(before));
    assert(c == '(' || c == ')' || c == '[' || c == ']');
}

proof fn lemma_lex_one(cs: Seq<char>, i: int, t: TokView, pend: Seq<char>, done: Seq<TokView>, before: Seq<TokView>) -> (r: (Seq<char>, Seq<TokView>))
    requires
        token_writable(t),
        holds_at(cs, i, token_text(t)),
        flushed(pend, done) == Ok::<Seq<TokView>, ErrorView>(before),
        t is Boost ==> 0 < i && !white_space(cs[i - 1]),
        i + token_text(t).len() < cs.len() ==> cs[i + token_text(t).len()] == ' ' || cs[i + token_text(t).len()] == '^',
    ensures
        lex_from(cs, i, pend, done) == lex_from(cs, i + token_text(t).len(), r.0, r.1),
        flushed(r.0, r.1) == Ok::<Seq<TokView>, ErrorView>(before.push(t)),
{
    if t is Near || t is Word || t is Neg || t is And || t is Or {
        lemma_token_word(t);
        lemma_lex_spaced(cs, i, token_word(t), pend, done, before);
        (token_word(t), before)
    } else {
        match t {
            TokView::Boost(n) => {
                lemma_lex_boost(cs, i, n, pend, done, before);
            },
            TokView::Phrase(items, slop) => {
                let tail = if slop == 0 { Seq::empty() } else { seq!['~'] + number_text(slop) };
                let quoted = seq!['"'] + items_text(items) + seq!['"'] + tail;
                assert(token_text(t) =~= seq![' '] + quoted);
                lemma_holds_split(cs, i, seq![' '], quoted);
                lemma_holds(cs, i, seq![' '], 0);
                lemma_lex_space(cs, i, pend, done, before);
                lemma_lex_phrase(cs, i + 1, items, slop, before);
            },
            _ => {
                lemma_lex_bracket(cs, i, t, pend, done, before);
            },
        }
        (Seq::empty(), before.push(t))
    }
}

proof fn lemma_lex_tokens(ts: Seq<TokView>, k: int) -> (r: (Seq<char>, Seq<TokView>))
    requires
        0 <= k <= ts.len(),
        forall|i: int| 0 <= i < ts.len() ==> token_writable(#[trigger] ts[i]),
        ts.len() > 0 ==> !(ts[0] is Boost),
    ensures
        ({
            let cs = text_of(ts);
            let i = text_of(ts.take(k)).len() as int;
            &&& tokens(cs) == lex_from(cs, i, r.0, r.1)
            &&& flushed(r.0, r.1) == Ok::<Seq<TokView>, ErrorView>(ts.take(k))
            &&& k > 0 ==> 0 < i <= cs.len() && !white_space(cs[i - 1])
        }),
    decreases k,
{
    let cs = text_of(ts);
    if k == 0 {
        assert(ts.take(0) =~= Seq::empty());
        (Seq::empty(), Seq::empty())
    } else {
        let (pend, done) = lemma_lex_tokens(ts, k - 1);
        let before = ts.take(k - 1);
        let i = text_of(before).len() as int;
        let t = ts[k - 1];
        let s = token_text(t);
        let e = i + s.len();
        lemma_text_leads(ts, k - 1);
        lemma_text_leads(ts, k);
        lemma_token_text(t);
        assert(before.push(t) =~= ts.take(k));
        lemma_holds(cs, i, s, s.len() - 1);
        if k < ts.len() {
            lemma_token_text(ts[k]);
            lemma_holds(cs, e, token_text(ts[k]), 0);
            assert(cs[e] == ' ' || cs[e] == '^');
        } else {
            assert(ts.take(k) =~= ts);
            assert(e == cs.len());
        }
        lemma_lex_one(cs, i, t, pend, done, before)
    }
}

/// Tokens are read as they are written: brackets, keywords, distances and
/// words behind a space each, boosts right behind what they boost, and phrases
/// with their words, gaps, choices and slop.
pub proof fn tokens_read_back(ts: Seq<TokView>)
    requires
        forall|i: int| 0 <= i < ts.len() ==> token_writable(#[trigger] ts[i]),
        ts.len() > 0 ==> !(ts[0] is Boost),
    ensures
        tokens(text_of(ts)) == Ok::<Seq<TokView>, ErrorView>(ts),
{
    let n = ts.len() as int;
    let r = lemma_lex_tokens(ts, n);
    assert(ts.take(n) =~= ts);
    let cs = text_of(ts);
    assert(lex_from(cs, cs.len() as int, r.0, r.1) == flushed(r.0, r.1));
}

// ---------------------------------------------------------------------------
// Expressions
// ---------------------------------------------------------------------------

/// `ts` stand at index `pos` of `t`.
pub open spec fn part_at(t: Seq<TokView>, pos: int, ts: Seq<TokView>) -> bool {
    0 <= pos && pos + ts.len() <= t.len() && ts == t.subrange(pos, pos + ts.len())
}

proof fn lemma_part_split(t: Seq<TokView>, pos: int, a: Seq<TokView>, b: Seq<TokView>)
    requires
        part_at(t, pos, a + b),
    ensures
        part_at(t, pos, a),
        part_at(t, pos + a.len(), b),
        forall|k: int| 0 <= k < a.len() ==> t[pos + k] == #[trigger] a[k],
        forall|k: int| 0 <= k < b.len() ==> t[pos + a.len() + k] == #[trigger] b[k],
{
    let s = a + b;
    assert forall|k: int| 0 <= k < a.len() implies t[pos + k] == #[trigger] a[k] by {
        assert(s[k] == a[k]);
    }
    assert forall|k: int| 0 <= k < b.len() implies t[pos + a.len() + k] == #[trigger] b[k] by {
        assert(s[a.len() + k] == b[k]);
    }
    assert(a =~= t.subrange(pos, pos + a.len()));
    assert(b =~= t.subrange(pos + a.len(), pos + a.len() + b.len()));
}

/// A boost follows.
pub open spec fn boosted(t: Seq<TokView>, e: int) -> bool {
    0 <= e < t.len() && t[e] is Boost
}

/// A boost or a distance follows.
pub open spec fn bound(t: Seq<TokView>, e: int) -> bool {
    0 <= e < t.len() && (t[e] is Boost || t[e] is Near)
}

/// An item starts here.
pub open spec fn opens(ts: Seq<TokView>) -> bool {
    ts.len() > 0 && (ts[0] is LParen || ts[0] is LBracket || ts[0] is Phrase || ts[0] is Word)
}

/// The tokens are an item, wherever they stand.
pub open spec fn item_reads(ts: Seq<TokView>, q: QueryView) -> bool {
    opens(ts) && forall|t: Seq<TokView>, pos: int|
        #[trigger] part_at(t, pos, ts) ==> primary_from(t, pos) == (Ok::<Option<QueryView>, ErrorView>(Some(q)), pos + ts.len())
}

/// The tokens are an item with its boost, if it has one.
pub open spec fn operand_reads(ts: Seq<TokView>, q: QueryView) -> bool {
    opens(ts) && forall|t: Seq<TokView>, pos: int|
        #[trigger] part_at(t, pos, ts) && !boosted(t, pos + ts.len()) ==> boosted_from(t, pos) == (
            Ok::<Option<QueryView>, ErrorView>(Some(q)),
            pos + ts.len(),
        )
}

/// The tokens lead a chain of distances.
pub open spec fn chain_leads(ts: Seq<TokView>, q: QueryView) -> bool {
    opens(ts) && forall|t: Seq<TokView>, pos: int|
        #[trigger] part_at(t, pos, ts) && !boosted(t, pos + ts.len()) ==> near_from(t, pos) == near_rest(t, pos + ts.len(), Some(q))
}

/// The tokens are operands of a conjunction.
pub open spec fn all_lead(ts: Seq<TokView>, qs: Seq<QueryView>) -> bool {
    &&& ts.len() > 0
    &&& opens(ts) || ts[0] is Neg
    &&& forall|t: Seq<TokView>, pos: int, parts: Seq<QueryView>|
        #[trigger] part_at(t, pos, ts) && !bound(t, pos + ts.len()) ==> #[trigger] and_from(t, pos, parts) == and_from(t, pos + ts.len(), parts + qs)
}

/// An expression ends here.
pub open spec fn closes(t: Seq<TokView>, e: int) -> bool {
    e == t.len() || (0 <= e < t.len() && (t[e] is RParen || t[e] is RBracket))
}

/// One query as it is, several as alternatives.
pub open spec fn some_of(qs: Seq<QueryView>) -> QueryView {
    if qs.len() == 1 {
        qs[0]
    } else {
        QueryView::Or(qs)
    }
}

/// One query as it is, several as a conjunction.
pub open spec fn each_of(qs: Seq<QueryView>) -> QueryView {
    if qs.len() == 1 {
        qs[0]
    } else {
        QueryView::And(qs)
    }
}

/// The tokens are alternatives.
pub open spec fn some_read(ts: Seq<TokView>, qs: Seq<QueryView>) -> bool {
    &&& ts.len() > 0
    &&& qs.len() > 0
    &&& forall|t: Seq<TokView>, pos: int, parts: Seq<QueryView>|
        #[trigger] part_at(t, pos, ts) && closes(t, pos + ts.len()) ==> #[trigger] or_from(t, pos, parts) == (
            Ok::<Option<QueryView>, ErrorView>(Some(some_of(parts + qs))),
            pos + ts.len(),
        )
}

/// The tokens are items of a list.
pub open spec fn list_leads(ts: Seq<TokView>, qs: Seq<QueryView>) -> bool {
    &&& opens(ts)
    &&& forall|t: Seq<TokView>, pos: int, items: Seq<QueryView>, some: bool|
        #[trigger] part_at(t, pos, ts) && !bound(t, pos + ts.len()) ==> #[trigger] list_from(t, pos, items, some) == list_from(
            t,
            pos + ts.len(),
            items + qs,
            true,
        )
}

/// Parentheses make an expression an item.
pub proof fn parentheses_group(ts: Seq<TokView>, qs: Seq<QueryView>)
    requires
        some_read(ts, qs),
    ensures
        item_reads(seq![TokView::LParen] + ts + seq![TokView::RParen], some_of(qs)),
{
    let all = seq![TokView::LParen] + ts + seq![TokView::RParen];
    assert forall|t: Seq<TokView>, pos: int| #[trigger] part_at(t, pos, all) implies primary_from(t, pos) == (
        Ok::<Option<QueryView>, ErrorView>(Some(some_of(qs))),
        pos + all.len(),
    ) by {
        lemma_part_split(t, pos, seq![TokView::LParen] + ts, seq![TokView::RParen]);
        lemma_part_split(t, pos, seq![TokView::LParen], ts);
        let e = pos + 1 + ts.len();
        assert(t[pos] == seq![TokView::LParen][0]);
        assert(t[e] == seq![TokView::RParen][0]);
        assert(part_at(t, pos + 1, ts) && closes(t, e));
        assert(Seq::<QueryView>::empty() + qs =~= qs);
        assert(or_from(t, pos + 1, Seq::empty()) == (Ok::<Option<QueryView>, ErrorView>(Some(some_of(qs))), e));
    }
}

/// An item stands as an operand without a boost.
pub proof fn item_is_operand(ts: Seq<TokView>, q: QueryView)
    requires
        item_reads(ts, q),
    ensures
        operand_reads(ts, q),
{
    assert forall|t: Seq<TokView>, pos: int| #[trigger] part_at(t, pos, ts) && !boosted(t, pos + ts.len()) implies boosted_from(t, pos) == (
        Ok::<Option<QueryView>, ErrorView>(Some(q)),
        pos + ts.len(),
    ) by {
        assert(primary_from(t, pos) == (Ok::<Option<QueryView>, ErrorView>(Some(q)), pos + ts.len()));
    }
}

/// A boost weighs the item that it follows.
pub proof fn boost_weighs_its_item(ts: Seq<TokView>, q: QueryView, n: Seq<char>)
    requires
        item_reads(ts, q),
    ensures
        operand_reads(ts.push(TokView::Boost(n)), QueryView::Boost(Box::new(q), n)),
{
    let all = ts.push(TokView::Boost(n));
    assert(all =~= ts + seq![TokView::Boost(n)]);
    assert forall|t: Seq<TokView>, pos: int| #[trigger] part_at(t, pos, all) && !boosted(t, pos + all.len()) implies boosted_from(t, pos) == (
        Ok::<Option<QueryView>, ErrorView>(Some(QueryView::Boost(Box::new(q), n))),
        pos + all.len(),
    ) by {
        lemma_part_split(t, pos, ts, seq![TokView::Boost(n)]);
        assert(t[pos + ts.len()] == seq![TokView::Boost(n)][0]);
        assert(primary_from(t, pos) == (Ok::<Option<QueryView>, ErrorView>(Some(q)), pos + ts.len()));
    }
}

/// An operand leads a chain of distances.
pub proof fn operand_leads_chain(ts: Seq<TokView>, q: QueryView)
    requires
        operand_reads(ts, q),
    ensures
        chain_leads(ts, q),
{
    assert forall|t: Seq<TokView>, pos: int| #[trigger] part_at(t, pos, ts) && !boosted(t, pos + ts.len()) implies near_from(t, pos) == near_rest(
        t,
        pos + ts.len(),
        Some(q),
    ) by {
        assert(boosted_from(t, pos) == (Ok::<Option<QueryView>, ErrorView>(Some(q)), pos + ts.len()));
    }
}

/// Distances are read from left to right, and bind what stands next to them.
pub proof fn distance_joins_operands(a: Seq<TokView>, l: QueryView, gap: int, ordered: bool, b: Seq<TokView>, r: QueryView)
    requires
        chain_leads(a, l),
        operand_reads(b, r),
    ensures
        chain_leads(a + seq![TokView::Near(gap, ordered)] + b, QueryView::Near { left: Box::new(l), right: Box::new(r), gap, ordered }),
{
    let op = seq![TokView::Near(gap, ordered)];
    let all = a + op + b;
    let q = QueryView::Near { left: Box::new(l), right: Box::new(r), gap, ordered };
    assert(all[0] == a[0]);
    assert forall|t: Seq<TokView>, pos: int| #[trigger] part_at(t, pos, all) && !boosted(t, pos + all.len()) implies near_from(t, pos) == near_rest(
        t,
        pos + all.len(),
        Some(q),
    ) by {
        lemma_part_split(t, pos, a + op, b);
        lemma_part_split(t, pos, a, op);
        let m = pos + a.len();
        assert(t[m] == op[0]);
        assert(t[m + 1 + 0] == b[0]);
        assert(part_at(t, pos, a) && !boosted(t, m));
        assert(near_from(t, pos) == near_rest(t, m, Some(l)));
        assert(part_at(t, m + 1, b));
        assert(boosted_from(t, m + 1) == (Ok::<Option<QueryView>, ErrorView>(Some(r)), m + 1 + b.len()));
    }
}

/// A chain of distances is an operand of a conjunction.
pub proof fn chain_is_conjunct(ts: Seq<TokView>, q: QueryView)
    requires
        chain_leads(ts, q),
    ensures
        all_lead(ts, seq![q]),
{
    assert forall|t: Seq<TokView>, pos: int, parts: Seq<QueryView>|
        #[trigger] part_at(t, pos, ts) && !bound(t, pos + ts.len()) implies #[trigger] and_from(t, pos, parts) == and_from(t, pos + ts.len(), parts + seq![q]) by {
        let e = pos + ts.len();
        assert(t[pos] == ts[0]);
        assert(near_from(t, pos) == near_rest(t, e, Some(q)));
        assert(near_rest(t, e, Some(q)) == (Ok::<Option<QueryView>, ErrorView>(Some(q)), e));
        assert(parts.push(q) =~= parts + seq![q]);
    }
}

/// `NOT` negates the chain behind it, and nothing more.
pub proof fn not_negates_its_chain(ts: Seq<TokView>, q: QueryView)
    requires
        chain_leads(ts, q),
    ensures
        all_lead(seq![TokView::Neg] + ts, seq![QueryView::Not(Box::new(q))]),
{
    let all = seq![TokView::Neg] + ts;
    let n = QueryView::Not(Box::new(q));
    assert forall|t: Seq<TokView>, pos: int, parts: Seq<QueryView>|
        #[trigger] part_at(t, pos, all) && !bound(t, pos + all.len()) implies #[trigger] and_from(t, pos, parts) == and_from(t, pos + all.len(), parts + seq![n]) by {
        lemma_part_split(t, pos, seq![TokView::Neg], ts);
        let e = pos + all.len();
        assert(t[pos] == seq![TokView::Neg][0]);
        assert(t[pos + 1 + 0] == ts[0]);
        assert(part_at(t, pos + 1, ts));
        assert(near_from(t, pos + 1) == near_rest(t, e, Some(q)));
        assert(near_rest(t, e, Some(q)) == (Ok::<Option<QueryView>, ErrorView>(Some(q)), e));
        assert(parts.push(n) =~= parts + seq![n]);
    }
}

/// Operands side by side, or with `AND` between, are operands of one
/// conjunction.
pub proof fn and_joins_operands(a: Seq<TokView>, ps: Seq<QueryView>, b: Seq<TokView>, qs: Seq<QueryView>)
    requires
        all_lead(a, ps),
        all_lead(b, qs),
    ensures
        all_lead(a + b, ps + qs),
        all_lead(a + seq![TokView::And] + b, ps + qs),
{
    let both = a + b;
    assert(both[0] == a[0]);
    assert forall|t: Seq<TokView>, pos: int, parts: Seq<QueryView>|
        #[trigger] part_at(t, pos, both) && !bound(t, pos + both.len()) implies #[trigger] and_from(t, pos, parts) == and_from(
        t,
        pos + both.len(),
        parts + (ps + qs),
    ) by {
        lemma_part_split(t, pos, a, b);
        let m = pos + a.len();
        assert(t[m + 0] == b[0]);
        assert(and_from(t, pos, parts) == and_from(t, m, parts + ps));
        assert(part_at(t, m, b));
        assert(and_from(t, m, parts + ps) == and_from(t, m + b.len(), parts + ps + qs));
        assert(parts + ps + qs =~= parts + (ps + qs));
    }
    let op = seq![TokView::And];
    let all = a + op + b;
    assert(all[0] == a[0]);
    assert forall|t: Seq<TokView>, pos: int, parts: Seq<QueryView>|
        #[trigger] part_at(t, pos, all) && !bound(t, pos + all.len()) implies #[trigger] and_from(t, pos, parts) == and_from(
        t,
        pos + all.len(),
        parts + (ps + qs),
    ) by {
        lemma_part_split(t, pos, a + op, b);
        lemma_part_split(t, pos, a, op);
        let m = pos + a.len();
        assert(t[m] == op[0]);
        assert(and_from(t, pos, parts) == and_from(t, m, parts + ps));
        assert(and_from(t, m, parts + ps) == and_from(t, m + 1, parts + ps));
        assert(part_at(t, m + 1, b));
        assert(and_from(t, m + 1, parts + ps) == and_from(t, m + 1 + b.len(), parts + ps + qs));
        assert(parts + ps + qs =~= parts + (ps + qs));
    }
}

proof fn lemma_conjunction(t: Seq<TokView>, pos: int, ts: Seq<TokView>, qs: Seq<QueryView>)
    requires
        all_lead(ts, qs),
        qs.len() > 0,
        part_at(t, pos, ts),
        closes(t, pos + ts.len()) || (pos + ts.len() < t.len() && t[pos + ts.len()] is Or),
    ensures
        and_from(t, pos, Seq::empty()) == (Ok::<Option<QueryView>, ErrorView>(Some(each_of(qs))), pos + ts.len()),
{
    let e = pos + ts.len();
    assert(and_from(t, pos, Seq::empty()) == and_from(t, e, Seq::<QueryView>::empty() + qs));
    assert(Seq::<QueryView>::empty() + qs =~= qs);
}

/// A conjunction stands as an expression.
pub proof fn conjunction_is_expression(ts: Seq<TokView>, qs: Seq<QueryView>)
    requires
        all_lead(ts, qs),
        qs.len() > 0,
    ensures
        some_read(ts, seq![each_of(qs)]),
{
    let q = each_of(qs);
    assert forall|t: Seq<TokView>, pos: int, parts: Seq<QueryView>|
        #[trigger] part_at(t, pos, ts) && closes(t, pos + ts.len()) implies #[trigger] or_from(t, pos, parts) == (
        Ok::<Option<QueryView>, ErrorView>(Some(some_of(parts + seq![q]))),
        pos + ts.len(),
    ) by {
        lemma_conjunction(t, pos, ts, qs);
        assert(parts.push(q) =~= parts + seq![q]);
    }
}

/// `OR` binds looser than everything else: it joins whole conjunctions.
pub proof fn or_joins_conjunctions(a: Seq<TokView>, ps: Seq<QueryView>, b: Seq<TokView>, qs: Seq<QueryView>)
    requires
        all_lead(a, ps),
        ps.len() > 0,
        some_read(b, qs),
    ensures
        some_read(a + seq![TokView::Or] + b, seq![each_of(ps)] + qs),
{
    let op = seq![TokView::Or];
    let all = a + op + b;
    let p = each_of(ps);
    assert forall|t: Seq<TokView>, pos: int, parts: Seq<QueryView>|
        #[trigger] part_at(t, pos, all) && closes(t, pos + all.len()) implies #[trigger] or_from(t, pos, parts) == (
        Ok::<Option<QueryView>, ErrorView>(Some(some_of(parts + (seq![p] + qs)))),
        pos + all.len(),
    ) by {
        lemma_part_split(t, pos, a + op, b);
        lemma_part_split(t, pos, a, op);
        let m = pos + a.len();
        assert(t[m] == op[0]);
        lemma_conjunction(t, pos, a, ps);
        assert(part_at(t, m + 1, b) && closes(t, m + 1 + b.len()));
        assert(or_from(t, pos, parts) == or_from(t, m + 1, parts.push(p)));
        assert(parts.push(p) + qs =~= parts + (seq![p] + qs));
    }
}

/// A chain of distances is an item of a list.
pub proof fn chain_is_list_item(ts: Seq<TokView>, q: QueryView)
    requires
        chain_leads(ts, q),
    ensures
        list_leads(ts, seq![q]),
{
    assert forall|t: Seq<TokView>, pos: int, items: Seq<QueryView>, some: bool|
        #[trigger] part_at(t, pos, ts) && !bound(t, pos + ts.len()) implies #[trigger] list_from(t, pos, items, some) == list_from(
        t,
        pos + ts.len(),
        items + seq![q],
        true,
    ) by {
        let e = pos + ts.len();
        assert(t[pos] == ts[0]);
        assert(near_from(t, pos) == near_rest(t, e, Some(q)));
        assert(near_rest(t, e, Some(q)) == (Ok::<Option<QueryView>, ErrorView>(Some(q)), e));
        assert(items.push(q) =~= items + seq![q]);
    }
}

/// The items of a list stand side by side.
pub proof fn list_items_follow(a: Seq<TokView>, ps: Seq<QueryView>, b: Seq<TokView>, qs: Seq<QueryView>)
    requires
        list_leads(a, ps),
        list_leads(b, qs),
    ensures
        list_leads(a + b, ps + qs),
{
    let both = a + b;
    assert(both[0] == a[0]);
    assert forall|t: Seq<TokView>, pos: int, items: Seq<QueryView>, some: bool|
        #[trigger] part_at(t, pos, both) && !bound(t, pos + both.len()) implies #[trigger] list_from(t, pos, items, some) == list_from(
        t,
        pos + both.len(),
        items + (ps + qs),
        true,
    ) by {
        lemma_part_split(t, pos, a, b);
        let m = pos + a.len();
        assert(t[m + 0] == b[0]);
        assert(list_from(t, pos, items, some) == list_from(t, m, items + ps, true));
        assert(part_at(t, m, b));
        assert(list_from(t, m, items + ps, true) == list_from(t, m + b.len(), items + ps + qs, true));
        assert(items + ps + qs =~= items + (ps + qs));
    }
}

proof fn lemma_list(t: Seq<TokView>, pos: int, ts: Seq<TokView>, qs: Seq<QueryView>)
    requires
        list_leads(ts, qs),
        part_at(t, pos, ts + seq![TokView::RBracket]),
    ensures
        list_from(t, pos, Seq::empty(), false) == (Ok::<Seq<QueryView>, ErrorView>(qs), pos + ts.len() + 1),
{
    let close = seq![TokView::RBracket];
    lemma_part_split(t, pos, ts, close);
    let e = pos + ts.len();
    assert(t[e + 0] == close[0]);
    assert(list_from(t, pos, Seq::empty(), false) == list_from(t, e, Seq::<QueryView>::empty() + qs, true));
    assert(Seq::<QueryView>::empty() + qs =~= qs);
}

/// A list in brackets is satisfied by any of its items.
pub proof fn brackets_list_alternatives(ts: Seq<TokView>, qs: Seq<QueryView>)
    requires
        list_leads(ts, qs),
        qs.len() > 0,
    ensures
        item_reads(seq![TokView::LBracket] + (ts + seq![TokView::RBracket]), some_of(qs)),
{
    let list = ts + seq![TokView::RBracket];
    let all = seq![TokView::LBracket] + list;
    assert forall|t: Seq<TokView>, pos: int| #[trigger] part_at(t, pos, all) implies primary_from(t, pos) == (
        Ok::<Option<QueryView>, ErrorView>(Some(some_of(qs))),
        pos + all.len(),
    ) by {
        lemma_part_split(t, pos, seq![TokView::LBracket], list);
        assert(t[pos + 0] == seq![TokView::LBracket][0]);
        lemma_list(t, pos + 1, ts, qs);
    }
}

/// `ALL OF` a list asks for each of its items.
pub proof fn all_of_asks_for_each(ts: Seq<TokView>, qs: Seq<QueryView>)
    requires
        list_leads(ts, qs),
        qs.len() > 0,
    ensures
        item_reads(
            seq![TokView::Word(seq!['A', 'L', 'L']), TokView::Word(seq!['O', 'F']), TokView::LBracket] + (ts + seq![TokView::RBracket]),
            each_of(qs),
        ),
{
    let head = seq![TokView::Word(seq!['A', 'L', 'L']), TokView::Word(seq!['O', 'F']), TokView::LBracket];
    let list = ts + seq![TokView::RBracket];
    let all = head + list;
    assert(all[0] == head[0]);
    assert forall|t: Seq<TokView>, pos: int| #[trigger] part_at(t, pos, all) implies primary_from(t, pos) == (
        Ok::<Option<QueryView>, ErrorView>(Some(each_of(qs))),
        pos + all.len(),
    ) by {
        lemma_part_split(t, pos, head, list);
        assert(t[pos + 0] == head[0] && t[pos + 1] == head[1] && t[pos + 2] == head[2]);
        lemma_list(t, pos + 3, ts, qs);
    }
}

/// `AT LEAST n OF` a list, with the number written out.
pub open spec fn at_least_tokens(n: Seq<char>, ts: Seq<TokView>) -> Seq<TokView> {
    seq![
        TokView::Word(seq!['A', 'T']),
        TokView::Word(seq!['L', 'E', 'A', 'S', 'T']),
        TokView::Word(n),
        TokView::Word(seq!['O', 'F']),
        TokView::LBracket,
    ] + (ts + seq![TokView::RBracket])
}

proof fn lemma_at_least_tokens(n: Seq<char>, ts: Seq<TokView>, qs: Seq<QueryView>, q: QueryView)
    requires
        list_leads(ts, qs),
        threshold(n, qs.len() as int) is Ok,
        at_least(threshold(n, qs.len() as int)->Ok_0, qs) == Ok::<Option<QueryView>, ErrorView>(Some(q)),
    ensures
        item_reads(at_least_tokens(n, ts), q),
{
    let head = seq![
        TokView::Word(seq!['A', 'T']),
        TokView::Word(seq!['L', 'E', 'A', 'S', 'T']),
        TokView::Word(n),
        TokView::Word(seq!['O', 'F']),
        TokView::LBracket,
    ];
    let list = ts + seq![TokView::RBracket];
    let all = head + list;
    assert(all[0] == head[0]);
    assert forall|t: Seq<TokView>, pos: int| #[trigger] part_at(t, pos, all) implies primary_from(t, pos) == (
        Ok::<Option<QueryView>, ErrorView>(Some(q)),
        pos + all.len(),
    ) by {
        lemma_part_split(t, pos, head, list);
        assert(t[pos + 0] == head[0] && t[pos + 1] == head[1] && t[pos + 2] == head[2] && t[pos + 3] == head[3] && t[pos + 4] == head[4]);
        assert(seq!['A', 'T'].len() == 2 && seq!['A', 'L', 'L'].len() == 3);
        lemma_list(t, pos + 5, ts, qs);
    }
}

/// `AT LEAST n OF` a list is satisfied by exactly the documents that satisfy
/// `n` of its items, or all of them if there are fewer.
pub proof fn at_least_n_of(n: int, ts: Seq<TokView>, qs: Seq<QueryView>, doc: Doc)
    requires
        1 <= n <= u64::MAX,
        list_leads(ts, qs),
        qs.len() > 0,
        forall|i: int| 0 <= i < qs.len() ==> (#[trigger] qs[i]).valid() && !(qs[i] is Not),
        placed(doc),
    ensures
        exists|q: QueryView| #[trigger] item_reads(at_least_tokens(number_text(n), ts), q) && (satisfied(q, doc) <==> satisfied_items(qs, doc).len() >= n
            || satisfied_items(qs, doc).len() == qs.len()),
{
    counts_are_taken_as_written(n, qs.len() as int);
    at_least_counts(n, qs, doc);
    let q = at_least(n, qs)->Ok_0->0;
    lemma_at_least_tokens(number_text(n), ts, qs, q);
}

/// `AT LEAST p% OF` a list is satisfied by exactly the documents that satisfy
/// that part of its items.
pub proof fn at_least_part_of(p: int, ts: Seq<TokView>, qs: Seq<QueryView>, doc: Doc)
    requires
        1 <= p <= 100,
        list_leads(ts, qs),
        qs.len() > 0,
        forall|i: int| 0 <= i < qs.len() ==> (#[trigger] qs[i]).valid() && !(qs[i] is Not),
        placed(doc),
    ensures
        exists|q: QueryView| #[trigger] item_reads(at_least_tokens(number_text(p).push('%'), ts), q) && (satisfied(q, doc) <==> 100
            * satisfied_items(qs, doc).len() >= p * qs.len()),
{
    let k = qs.len() as int;
    let n = number_text(p).push('%');
    percentages_round_up(p, k);
    let v = threshold(n, k)->Ok_0;
    assert(1 <= p * k <= 100 * k) by (nonlinear_arith)
        requires
            1 <= p <= 100,
            1 <= k,
    ;
    assert(1 <= v <= k);
    at_least_counts(v, qs, doc);
    crate::query_laws::lemma_items_count(qs, doc);
    let q = at_least(v, qs)->Ok_0->0;
    lemma_at_least_tokens(n, ts, qs, q);
    let c = satisfied_items(qs, doc).len() as int;
    assert(c <= k);
    assert(satisfied(q, doc) <==> c >= v);
    assert(c >= v <==> 100 * c >= p * k);
}

// ---------------------------------------------------------------------------
// Items
// ---------------------------------------------------------------------------

proof fn lemma_plain_ends(w: Seq<char>)
    requires
        is_plain_word(w),
    ensures
        w.len() >= 1,
        w[0] != '*',
        w[0] != '_',
        w.last() != '*',
        w.last() != '~',
        w.len() >= 2 ==> w[w.len() - 2] != '~',
        no_lead(w) == w,
        no_trail(w) == w,
        fuzz_of(w) == (w, None::<int>),
{
    let n = w.len() as int;
    assert(w[n - 1] == w.last());
    assert(w[0] != '*');
    if n >= 2 {
        assert(w[n - 2] != '~');
    }
}

proof fn lemma_word_item(w: Seq<char>, q: QueryView)
    requires
        word_query(w) == Ok::<Option<QueryView>, ErrorView>(Some(q)),
        w != seq!['A', 'L', 'L'],
        w != seq!['A', 'T'],
    ensures
        item_reads(seq![TokView::Word(w)], q),
{
    let ts = seq![TokView::Word(w)];
    assert forall|t: Seq<TokView>, pos: int| #[trigger] part_at(t, pos, ts) implies primary_from(t, pos) == (
        Ok::<Option<QueryView>, ErrorView>(Some(q)),
        pos + ts.len(),
    ) by {
        assert(t.subrange(pos, pos + 1)[0] == ts[0]);
        assert(t[pos] == TokView::Word(w));
    }
}

proof fn lemma_plain_query(w: Seq<char>)
    requires
        is_plain_word(w),
    ensures
        word_query(w) == Ok::<Option<QueryView>, ErrorView>(Some(QueryView::Term(fold(w)))),
{
    lemma_plain_ends(w);
    plain_word_is_one_term(w);
}

/// A word asks for itself in lower case.
pub proof fn word_asks_for_itself(w: Seq<char>)
    requires
        is_plain_word(w),
        w != seq!['A', 'L', 'L'],
        w != seq!['A', 'T'],
    ensures
        item_reads(seq![TokView::Word(w)], QueryView::Term(fold(w))),
{
    lemma_plain_query(w);
    lemma_word_item(w, QueryView::Term(fold(w)));
}

/// A word that is split in two asks for both parts, one right behind the
/// other.
pub proof fn split_word_asks_for_a_phrase(a: Seq<char>, sep: char, b: Seq<char>)
    requires
        is_plain_word(a),
        is_plain_word(b),
        is_break(sep),
        sep == '~' ==> b != seq!['1'] && b != seq!['2'],
    ensures
        item_reads(seq![TokView::Word(a + seq![sep] + b)], phrase_of_terms(seq![fold(a), fold(b)])),
{
    let w = a + seq![sep] + b;
    let n = w.len() as int;
    lemma_plain_ends(a);
    lemma_plain_ends(b);
    assert forall|i: int| 0 <= i < a.len() implies 0x20 <= (#[trigger] a[i]) as u32 <= 0x7E by {}
    assert forall|i: int| 0 <= i < b.len() implies 0x20 <= (#[trigger] b[i]) as u32 <= 0x7E by {}
    analysis_goes_word_by_word(a, sep, b);
    plain_word_is_one_term(a);
    plain_word_is_one_term(b);
    assert(w[0] == a[0]);
    assert(w[n - 1] == b.last());
    if b.len() >= 2 {
        assert(w[n - 2] == b[b.len() - 2]);
    } else {
        assert(w[n - 2] == sep);
        assert(w[n - 1] == b[0]);
        assert(b =~= seq![b[0]]);
    }
    assert(no_lead(w) == w && no_trail(w) == w && fuzz_of(w) == (w, None::<int>));
    assert(terms_of(w) =~= seq![fold(a), fold(b)]);
    assert(w[a.len() as int] == sep);
    lemma_word_item(w, phrase_of_terms(seq![fold(a), fold(b)]));
}

/// A star behind a word asks for words that it leads, one before it for words
/// that hold it; `~` and `~1` allow one edit, `~2` two.
pub proof fn patterns_ask_for_likeness(w: Seq<char>)
    requires
        is_plain_word(w),
    ensures
        item_reads(seq![TokView::Word(w.push('*'))], QueryView::Prefix(fold(w))),
        item_reads(seq![TokView::Word(seq!['*'] + w)], QueryView::Fragment(fold(w))),
        item_reads(seq![TokView::Word(seq!['*'] + w.push('*'))], QueryView::Fragment(fold(w))),
        item_reads(seq![TokView::Word(w.push('~'))], QueryView::Fuzzy(fold(w), 1)),
        item_reads(seq![TokView::Word(w.push('~').push('1'))], QueryView::Fuzzy(fold(w), 1)),
        item_reads(seq![TokView::Word(w.push('~').push('2'))], QueryView::Fuzzy(fold(w), 2)),
{
    let n = w.len() as int;
    lemma_plain_ends(w);
    plain_word_is_one_term(w);
    let a = w.push('*');
    assert(a[0] == w[0]);
    assert(a.subrange(0, n) =~= w);
    assert(no_trail(a) == no_trail(a.subrange(0, n)));
    assert(a.last() == '*');
    assert(word_query(a) == Ok::<Option<QueryView>, ErrorView>(Some(QueryView::Prefix(fold(w)))));
    lemma_word_item(a, QueryView::Prefix(fold(w)));
    let b = seq!['*'] + w;
    assert(b[0] == '*' && b.subrange(1, n + 1) =~= w);
    assert(no_lead(b) == no_lead(b.subrange(1, n + 1)));
    lemma_word_item(b, QueryView::Fragment(fold(w)));
    let c = seq!['*'] + a;
    assert(c[0] == '*' && c.subrange(1, n + 2) =~= a);
    assert(no_lead(c) == no_lead(c.subrange(1, n + 2)));
    assert(no_lead(a) == a);
    lemma_word_item(c, QueryView::Fragment(fold(w)));
    let d = w.push('~');
    assert(d[0] == w[0] && d.last() == '~' && d.subrange(0, n) =~= w);
    lemma_word_item(d, QueryView::Fuzzy(fold(w), 1));
    let e = d.push('1');
    assert(e[0] == w[0] && e.last() == '1' && e[n] == '~' && e.subrange(0, n) =~= w);
    lemma_word_item(e, QueryView::Fuzzy(fold(w), 1));
    let f = d.push('2');
    assert(f[0] == w[0] && f.last() == '2' && f[n] == '~' && f.subrange(0, n) =~= w);
    lemma_word_item(f, QueryView::Fuzzy(fold(w), 2));
}

/// A phrase item is a gap, a plain word or a choice of plain words.
pub open spec fn is_simple_item(item: ItemView) -> bool {
    match item {
        ItemView::Word(w) => is_plain_word(w),
        ItemView::Gap => true,
        ItemView::Alts(ws) => ws.len() > 0 && forall|i: int| 0 <= i < ws.len() ==> is_plain_word(#[trigger] ws[i]),
    }
}

/// What is asked for at the place of an item: its word, or one of its words.
pub open spec fn item_terms(item: ItemView) -> Seq<QueryView> {
    match item {
        ItemView::Word(w) => seq![QueryView::Term(fold(w))],
        ItemView::Gap => Seq::empty(),
        ItemView::Alts(ws) => Seq::new(ws.len(), |i: int| QueryView::Term(fold(ws[i]))),
    }
}

/// The slot of a phrase's item at place `i`.
pub open spec fn word_slot(items: Seq<ItemView>, i: int) -> SlotView {
    SlotView { offset: i, alts: item_terms(items[i]) }
}

proof fn lemma_choices(ws: Seq<Seq<char>>, n: int)
    requires
        0 <= n <= ws.len(),
        forall|i: int| 0 <= i < ws.len() ==> is_plain_word(#[trigger] ws[i]),
    ensures
        choices(ws, n) == Ok::<Seq<QueryView>, ErrorView>(Seq::new(n as nat, |i: int| QueryView::Term(fold(ws[i])))),
    decreases n,
{
    let all = Seq::new(n as nat, |i: int| QueryView::Term(fold(ws[i])));
    if n > 0 {
        lemma_choices(ws, n - 1);
        lemma_plain_query(ws[n - 1]);
        let less = Seq::new((n - 1) as nat, |i: int| QueryView::Term(fold(ws[i])));
        assert(less.push(QueryView::Term(fold(ws[n - 1]))) =~= all);
    } else {
        assert(all =~= Seq::empty());
    }
}

/// The first `n` items give a slot to each of their words and choices, and
/// to nothing else, in order.
pub open spec fn slots_follow_words(items: Seq<ItemView>, n: int, slots: Seq<SlotView>) -> bool {
    &&& forall|i: int| 0 <= i < n && !((#[trigger] items[i]) is Gap) ==> slots.contains(word_slot(items, i))
    &&& forall|k: int| 0 <= k < slots.len() ==> 0 <= (#[trigger] slots[k]).offset < n && !(items[slots[k].offset] is Gap) && slots[k] == word_slot(items, slots[k].offset)
    &&& forall|j: int, k: int| 0 <= j < k < slots.len() ==> (#[trigger] slots[j]).offset < (#[trigger] slots[k]).offset
}

proof fn lemma_slots_of(items: Seq<ItemView>, n: int)
    requires
        items.len() >= 1,
        !(items[0] is Gap),
        1 <= n <= items.len(),
        forall|i: int| 0 <= i < items.len() ==> is_simple_item(#[trigger] items[i]),
    ensures
        slots_of(items, n) is Ok,
        slots_of(items, n)->Ok_0.1 == n,
        slots_of(items, n)->Ok_0.0.len() >= 1,
        slots_follow_words(items, n, slots_of(items, n)->Ok_0.0),
    decreases n,
{
    let item = items[n - 1];
    assert(is_simple_item(item));
    if n > 1 {
        lemma_slots_of(items, n - 1);
    }
    let old_slots = if n > 1 { slots_of(items, n - 1)->Ok_0.0 } else { Seq::empty() };
    assert(slots_of(items, 0) == Ok::<(Seq<SlotView>, int), ErrorView>((Seq::empty(), 0)));
    assert(slots_of(items, n - 1) == Ok::<(Seq<SlotView>, int), ErrorView>((old_slots, n - 1)));
    let slots = slots_of(items, n)->Ok_0.0;
    match item {
        ItemView::Gap => {
            assert(slots == old_slots);
        },
        _ => {
            let s = word_slot(items, n - 1);
            match item {
                ItemView::Word(w) => {
                    lemma_plain_query(w);
                },
                ItemView::Alts(ws) => {
                    lemma_choices(ws, ws.len() as int);
                },
                _ => {},
            }
            assert(slots == old_slots.push(s));
            assert(slots[old_slots.len() as int] == s);
            assert forall|i: int| 0 <= i < n && !((#[trigger] items[i]) is Gap) implies slots.contains(word_slot(items, i)) by {
                if i < n - 1 {
                    assert(old_slots.contains(word_slot(items, i)));
                    let k = choose|k: int| 0 <= k < old_slots.len() && old_slots[k] == word_slot(items, i);
                    assert(slots[k] == word_slot(items, i));
                }
            }
            assert forall|k: int| 0 <= k < slots.len() implies 0 <= (#[trigger] slots[k]).offset < n && !(items[slots[k].offset] is Gap) && slots[k] == word_slot(
                items,
                slots[k].offset,
            ) by {
                if k < old_slots.len() {
                    assert(slots[k] == old_slots[k]);
                }
            }
            assert forall|j: int, k: int| 0 <= j < k < slots.len() implies (#[trigger] slots[j]).offset < (#[trigger] slots[k]).offset by {
                assert(slots[j] == old_slots[j]);
                if k < old_slots.len() {
                    assert(slots[k] == old_slots[k]);
                }
            }
        },
    }
}

/// A phrase asks for each of its words at its place, for one of the words of a
/// choice at the choice's, a gap leaving one place free, with as many words more as its slop says.
pub proof fn phrase_asks_for_places(items: Seq<ItemView>, slop: int)
    requires
        items.len() >= 2,
        !(items[0] is Gap),
        !(items.last() is Gap),
        forall|i: int| 0 <= i < items.len() ==> is_simple_item(#[trigger] items[i]),
    ensures
        exists|slots: Seq<SlotView>| slots_follow_words(items, items.len() as int, slots) && #[trigger] item_reads(
            seq![TokView::Phrase(items, slop)],
            QueryView::Phrase { slots, slop },
        ),
{
    let n = items.len() as int;
    lemma_slots_of(items, n);
    let slots = slots_of(items, n)->Ok_0.0;
    assert(slots.len() >= 2) by {
        assert(!(items[0] is Gap) && !(items[n - 1] is Gap));
        assert(slots.contains(word_slot(items, 0)) && slots.contains(word_slot(items, n - 1)));
        let a = choose|k: int| 0 <= k < slots.len() && slots[k] == word_slot(items, 0);
        let b = choose|k: int| 0 <= k < slots.len() && slots[k] == word_slot(items, n - 1);
        assert(slots[a].offset == 0 && slots[b].offset == n - 1);
    }
    let q = QueryView::Phrase { slots, slop };
    let ts = seq![TokView::Phrase(items, slop)];
    assert(phrase_query(items, slop) == Ok::<Option<QueryView>, ErrorView>(Some(q)));
    assert forall|t: Seq<TokView>, pos: int| #[trigger] part_at(t, pos, ts) implies primary_from(t, pos) == (
        Ok::<Option<QueryView>, ErrorView>(Some(q)),
        pos + ts.len(),
    ) by {
        assert(t.subrange(pos, pos + 1)[0] == ts[0]);
    }
    assert(item_reads(ts, q));
}

// ---------------------------------------------------------------------------
// Queries
// ---------------------------------------------------------------------------

/// A text is read as the query that its tokens make, unless that has nothing
/// to look for.
pub proof fn texts_are_read_as_written(ts: Seq<TokView>, qs: Seq<QueryView>)
    requires
        forall|i: int| 0 <= i < ts.len() ==> token_writable(#[trigger] ts[i]),
        ts.len() > 0,
        !(ts[0] is Boost),
        some_read(ts, qs),
    ensures
        query_of(text_of(ts)) == if plan_of(some_of(qs)) is Some {
            Ok::<QueryView, ErrorView>(some_of(qs))
        } else {
            Err::<QueryView, ErrorView>(ErrorView::UnboundedNegation)
        },
{
    tokens_read_back(ts);
    let n = ts.len() as int;
    assert(ts.subrange(0, n) =~= ts);
    assert(part_at(ts, 0, ts) && closes(ts, n));
    assert(Seq::<QueryView>::empty() + qs =~= qs);
    assert(or_from(ts, 0, Seq::empty()) == (Ok::<Option<QueryView>, ErrorView>(Some(some_of(qs))), n));
}

// ---------------------------------------------------------------------------
// Decimal numbers
// ---------------------------------------------------------------------------

/// The digits behind a point make a number that many tens smaller.
pub proof fn points_part_decimals(a: int, f: Seq<char>)
    requires
        0 <= a,
        all_digits(f),
    ensures
        decimal_of(number_text(a) + seq!['.'] + f) == Some(Decimal { negative: false, digits: number_text(a) + f, power: -(f.len() as int) }),
{
    let w = number_text(a);
    let s = w + seq!['.'] + f;
    let (b, n) = (w.len() as int, s.len() as int);
    lemma_number_text(a);
    assert(s[0] == w[0]);
    assert(is_digit(w[0]));
    assert forall|k: int| 0 <= k < b implies is_digit(#[trigger] s[k]) by {
        assert(s[k] == w[k]);
        assert(is_digit(w[k]));
    }
    assert(s[b] == '.');
    lemma_digits_end(s, 0, b);
    assert forall|k: int| b + 1 <= k < n implies is_digit(#[trigger] s[k]) by {
        assert(s[k] == f[k - b - 1]);
        assert(is_digit(f[k - b - 1]));
    }
    lemma_digits_end(s, b + 1, n);
    assert(s.subrange(0, b) =~= w);
    assert(s.subrange(b + 1, n) =~= f);
}

/// A number with an exponent is that many tens larger, or smaller behind a
/// minus.
pub proof fn exponents_scale_decimals(a: int, x: int)
    requires
        0 <= a,
        0 <= x,
    ensures
        decimal_of(number_text(a) + seq!['e'] + number_text(x)) == Some(Decimal { negative: false, digits: number_text(a), power: x }),
        decimal_of(number_text(a) + seq!['e', '-'] + number_text(x)) == Some(Decimal { negative: false, digits: number_text(a), power: -x }),
{
    let (w, v) = (number_text(a), number_text(x));
    let b = w.len() as int;
    lemma_number_text(a);
    lemma_number_text(x);
    assert(is_digit(w[0]) && is_digit(v[0]));
    let s = w + seq!['e'] + v;
    lemma_exponent(s, w, v, b + 1);
    let t = w + seq!['e', '-'] + v;
    lemma_exponent(t, w, v, b + 2);
}

proof fn lemma_exponent(s: Seq<char>, w: Seq<char>, v: Seq<char>, e: int)
    requires
        w.len() >= 1,
        v.len() >= 1,
        all_digits(w),
        all_digits(v),
        s == w + seq!['e'] + v && e == w.len() + 1 || s == w + seq!['e', '-'] + v && e == w.len() + 2,
    ensures
        decimal_of(s) == Some(Decimal { negative: false, digits: w, power: if e == w.len() + 1 { nat_of(v) } else { -nat_of(v) } }),
{
    let (b, n) = (w.len() as int, s.len() as int);
    assert(n == e + v.len());
    assert(s[0] == w[0] && is_digit(w[0]) && is_digit(v[0]));
    assert forall|k: int| 0 <= k < b implies is_digit(#[trigger] s[k]) by {
        assert(s[k] == w[k]);
        assert(is_digit(w[k]));
    }
    assert(s[b] == 'e');
    lemma_digits_end(s, 0, b);
    lemma_digits_end(s, b, b);
    assert forall|k: int| e <= k < n implies is_digit(#[trigger] s[k]) by {
        assert(s[k] == v[k - e]);
        assert(is_digit(v[k - e]));
    }
    lemma_digits_end(s, e, n);
    assert(s.subrange(e, n) =~= v);
    assert(s.subrange(0, b) + s.subrange(b, b) =~= w);
    assert(s[e] == v[0]);
}

/// A percentage is rounded up, whatever its digits.
pub proof fn percent_is_the_least_enough(d: Decimal, len: int)
    requires
        0 <= len,
        d.mantissa() >= 0,
    ensures
        ({
            let v = d.percent_of(len);
            let (up, down) = if d.power >= 0 { (pow(10, d.power as nat), 1int) } else { (1int, pow(10, (-d.power) as nat)) };
            &&& v * 100 * down >= d.mantissa() * up * len
            &&& (v - 1) * 100 * down < d.mantissa() * up * len
        }),
{
    let v = d.percent_of(len);
    if d.power >= 0 {
        let x = d.mantissa() * pow(10, d.power as nat) * len;
        assert(v == (x + 99) / 100);
    } else {
        let down = pow(10, (-d.power) as nat);
        vstd::arithmetic::power::lemma_pow_positive(10, (-d.power) as nat);
        let whole = 100 * down;
        let x = d.mantissa() * len;
        assert(v == (x + whole - 1) / whole);
        assert(v * whole >= x && (v - 1) * whole < x) by (nonlinear_arith)
            requires
                v == (x + whole - 1) / whole,
                whole > 0,
        ;
        assert(v * 100 * down == v * whole && (v - 1) * 100 * down == (v - 1) * whole) by (nonlinear_arith)
            requires
                whole == 100 * down,
        ;
        assert(d.mantissa() * 1 * len == x);
    }
}

/// A boost with digits behind its point is up to 10000 too.
pub proof fn boosts_with_points_end_there(a: int, f: Seq<char>)
    requires
        0 <= a,
        all_digits(f),
    ensures
        boost_ok(number_text(a) + seq!['.'] + f) <==> nat_of(number_text(a) + f) <= 10000 * pow(10, f.len()),
{
    points_part_decimals(a, f);
    lemma_pow_adds(10, 4, f.len());
    lemma_pow_adds(10, 2, 2);
    lemma_pow_adds(10, 1, 1);
    lemma_pow1(10);
    assert(pow(10, 2) == 100);
    assert(pow(10, 4) == 100 * 100);
}

// ---------------------------------------------------------------------------
// Signs between words
// ---------------------------------------------------------------------------

proof fn lemma_plain_chars(w: Seq<char>)
    requires
        is_plain_word(w),
    ensures
        forall|k: int| 0 <= k < w.len() ==> is_word_char(#[trigger] w[k]) && w[k] != '/' && w[k] != '-' && w[k] != ',',
{
}

/// A minus before a word negates it; one inside a word belongs to it.
pub proof fn minus_negates_before_a_word(a: Seq<char>, b: Seq<char>)
    requires
        is_plain_word(a),
        is_plain_word(b),
        !is_keyword(a),
    ensures
        tokens(seq!['-'] + a) == Ok::<Seq<TokView>, ErrorView>(seq![TokView::Neg, TokView::Word(a)]),
        tokens(a + seq!['-'] + b) == Ok::<Seq<TokView>, ErrorView>(seq![TokView::Word(a + seq!['-'] + b)]),
{
    lemma_plain_chars(a);
    lemma_plain_chars(b);
    let none = Seq::<TokView>::empty();
    let cs = seq!['-'] + a;
    let n = cs.len() as int;
    assert(cs[0] == '-');
    assert(!white_space('-'));
    assert(lex_from(cs, 0, Seq::empty(), none) == lex_from(cs, 1, Seq::empty(), none.push(TokView::Neg)));
    assert(a =~= cs.subrange(1, n));
    lemma_lex_word(cs, 1, a, Seq::empty(), none.push(TokView::Neg));
    assert(Seq::<char>::empty() + a =~= a);
    lemma_bare_token(a);
    assert(none.push(TokView::Neg).push(TokView::Word(a)) =~= seq![TokView::Neg, TokView::Word(a)]);
    let w = a + seq!['-'] + b;
    assert forall|k: int| 0 <= k < w.len() implies is_word_char(#[trigger] w[k]) && w[k] != '/' by {
        if k < a.len() {
            assert(w[k] == a[k]);
        } else if k > a.len() {
            assert(w[k] == b[k - a.len() - 1]);
        }
    }
    assert(w[0] == a[0]);
    assert(w[a.len() as int] == '-');
    lemma_no_keyword(w, a.len() as int);
    lemma_bare_token(w);
    assert(w =~= w.subrange(0, w.len() as int));
    lemma_lex_word(w, 0, w, Seq::empty(), none);
    assert(Seq::<char>::empty() + w =~= w);
    assert(none.push(TokView::Word(w)) =~= seq![TokView::Word(w)]);
}

/// A word with a sign in it that no keyword has is no keyword.
proof fn lemma_no_keyword(w: Seq<char>, i: int)
    requires
        0 <= i < w.len(),
        w[i] == '-' || w[i] == ',',
        forall|k: int| 0 <= k < w.len() ==> #[trigger] w[k] != '/',
    ensures
        !is_keyword(w),
{
    if w.len() >= 5 {
        let f = w.subrange(0, 5);
        assert(f[4] == w[4]);
        assert(seq!['T', 'H', 'E', 'N', '/'][4] == '/' && seq!['N', 'E', 'A', 'R', '/'][4] == '/');
    }
    if w == seq!['A', 'N', 'D'] || w == seq!['O', 'R'] || w == seq!['N', 'O', 'T'] || w == seq!['T', 'H', 'E', 'N'] || w == seq!['N', 'E', 'A', 'R'] {
        assert(i == 0 || i == 1 || i == 2 || i == 3);
    }
}

/// A comma parts words, but belongs to a number between two digits.
pub proof fn commas_part_words(a: Seq<char>, b: Seq<char>)
    requires
        is_plain_word(a),
        is_plain_word(b),
        !is_keyword(a),
        !is_keyword(b),
    ensures
        48 <= a[a.len() - 1] as u32 <= 57 && 48 <= b[0] as u32 <= 57 ==> tokens(a + seq![','] + b) == Ok::<Seq<TokView>, ErrorView>(
            seq![TokView::Word(a + seq![','] + b)],
        ),
        !(48 <= a[a.len() - 1] as u32 <= 57 && 48 <= b[0] as u32 <= 57) ==> tokens(a + seq![','] + b) == Ok::<Seq<TokView>, ErrorView>(
            seq![TokView::Word(a), TokView::Word(b)],
        ),
{
    let (x, y) = (a[a.len() - 1], b[0]);
    lemma_digit(x);
    lemma_digit(y);
    lemma_comma(a, b);
}

proof fn lemma_digit(c: char)
    ensures
        is_digit(c) <==> 48 <= c as u32 <= 57,
{
}

proof fn lemma_comma(a: Seq<char>, b: Seq<char>)
    requires
        is_plain_word(a),
        is_plain_word(b),
        !is_keyword(a),
        !is_keyword(b),
    ensures
        is_digit(a[a.len() - 1]) && is_digit(b[0]) ==> tokens(a + seq![','] + b) == Ok::<Seq<TokView>, ErrorView>(seq![TokView::Word(a + seq![','] + b)]),
        !(is_digit(a[a.len() - 1]) && is_digit(b[0])) ==> tokens(a + seq![','] + b) == Ok::<Seq<TokView>, ErrorView>(
            seq![TokView::Word(a), TokView::Word(b)],
        ),
{
    lemma_plain_chars(a);
    lemma_plain_chars(b);
    let none = Seq::<TokView>::empty();
    let cs = a + seq![','] + b;
    let (m, n) = (a.len() as int, cs.len() as int);
    assert(a =~= cs.subrange(0, m));
    lemma_lex_word(cs, 0, a, Seq::empty(), none);
    assert(Seq::<char>::empty() + a =~= a);
    assert(cs[m] == ',' && cs[m + 1] == b[0]);
    assert(b =~= cs.subrange(m + 1, n));
    lemma_bare_token(a);
    lemma_bare_token(b);
    assert(a.last() == a[m - 1]);
    lemma_lex_comma(cs, m, a, none);
    if is_digit(a[m - 1]) && is_digit(b[0]) {
        lemma_lex_word(cs, m + 1, b, a.push(','), none);
        assert(a.push(',') + b =~= cs);
        assert forall|k: int| 0 <= k < cs.len() implies #[trigger] cs[k] != '/' by {
            if k < m {
                assert(cs[k] == a[k]);
            } else if k > m {
                assert(cs[k] == b[k - m - 1]);
            }
        }
        lemma_no_keyword(cs, m);
        lemma_word_token(cs);
        assert(none.push(TokView::Word(cs)) =~= seq![TokView::Word(cs)]);
    } else {
        let one = none.push(TokView::Word(a));
        lemma_lex_word(cs, m + 1, b, Seq::empty(), one);
        assert(Seq::<char>::empty() + b =~= b);
        assert(one.push(TokView::Word(b)) =~= seq![TokView::Word(a), TokView::Word(b)]);
    }
}

proof fn lemma_lex_comma(cs: Seq<char>, i: int, word: Seq<char>, toks: Seq<TokView>)
    requires
        0 <= i,
        i + 1 < cs.len(),
        cs[i] == ',',
        word.len() > 0,
        word_token(word) == Ok::<TokView, ErrorView>(TokView::Word(word)),
    ensures
        is_digit(word.last()) && is_digit(cs[i + 1]) ==> lex_from(cs, i, word, toks) == lex_from(cs, i + 1, word.push(','), toks),
        !(is_digit(word.last()) && is_digit(cs[i + 1])) ==> lex_from(cs, i, word, toks) == lex_from(cs, i + 1, Seq::empty(), toks.push(TokView::Word(word))),
{
    assert(inside_number(cs, i, word) == (is_digit(word.last()) && is_digit(cs[i + 1])));
    assert(!white_space(','));
}

} // verus!
