//! The query language.
//!
//! Precedence, loosest first: `OR`, `AND` (explicit or implicit) and
//! negation, `THEN/N` / `NEAR/N` (left to right), boost `^`, then items.
//! Keywords are keywords only in upper case. Words go through the same
//! analyzer as documents; a word it splits into several terms (`e-mail`)
//! is a phrase of them. Patterns apply to a single term.
//!
//! The functions here say which tokens a text has and which query the tokens
//! make.

use vstd::prelude::*;
use crate::numeral::{decimal_of, digits_end, whole_of};
use crate::planner::plan_of;
use crate::query::{QueryView, SlotView};
use crate::text::is_digit;
use crate::tokenize::terms_of;

verus! {

/// Whether a character has the Unicode property `White_Space`.
pub open spec fn white_space(c: char) -> bool {
    let x = c as u32;
    ||| 0x9 <= x <= 0xD
    ||| x == 0x20
    ||| x == 0x85
    ||| x == 0xA0
    ||| x == 0x1680
    ||| 0x2000 <= x <= 0x200A
    ||| x == 0x2028
    ||| x == 0x2029
    ||| x == 0x202F
    ||| x == 0x205F
    ||| x == 0x3000
}

/// A text as a string literal's debug form, quoted and escaped.
pub uninterp spec fn quoted_of(s: Seq<char>) -> Seq<char>;

/// What is wrong with a query.
pub ghost enum ErrorView {
    Empty,
    UnbalancedParens,
    UnboundedNegation,
    BadPattern(Seq<char>),
    Syntax(Seq<char>),
}

/// One item inside quotes.
pub ghost enum ItemView {
    Word(Seq<char>),
    Gap,
    Alts(Seq<Seq<char>>),
}

pub ghost enum TokView {
    LParen,
    RParen,
    LBracket,
    RBracket,
    Neg,
    And,
    Or,
    /// `THEN/N` (ordered) or `NEAR/N`.
    Near(int, bool),
    Boost(Seq<char>),
    Phrase(Seq<ItemView>, int),
    Word(Seq<char>),
}

// ---------------------------------------------------------------------------
// Tokens
// ---------------------------------------------------------------------------

pub open spec fn is_then(w: Seq<char>) -> bool {
    w =~= seq!['T', 'H', 'E', 'N']
}

pub open spec fn is_near(w: Seq<char>) -> bool {
    w =~= seq!['N', 'E', 'A', 'R']
}

/// The token of a bare word: a keyword, an operator with its distance, or the
/// word itself.
pub open spec fn word_token(w: Seq<char>) -> Result<TokView, ErrorView> {
    if w =~= seq!['A', 'N', 'D'] {
        Ok(TokView::And)
    } else if w =~= seq!['O', 'R'] {
        Ok(TokView::Or)
    } else if w =~= seq!['N', 'O', 'T'] {
        Ok(TokView::Neg)
    } else if is_then(w) || is_near(w) {
        Err(ErrorView::Syntax(w + " needs a distance: "@ + w + "/N"@))
    } else if w.len() >= 5 && (is_then(w.subrange(0, 4)) || is_near(w.subrange(0, 4))) && w[4] == '/' {
        match whole_of(w.subrange(5, w.len() as int), u32::MAX as int) {
            Some(n) => Ok(TokView::Near(n, is_then(w.subrange(0, 4)))),
            None => Err(ErrorView::Syntax(w + ": the distance must be a number"@)),
        }
    } else {
        Ok(TokView::Word(w))
    }
}

/// The tokens with the word read so far added, if there is one.
pub open spec fn flushed(w: Seq<char>, toks: Seq<TokView>) -> Result<Seq<TokView>, ErrorView> {
    if w.len() == 0 {
        Ok(toks)
    } else {
        match word_token(w) {
            Ok(t) => Ok(toks.push(t)),
            Err(e) => Err(e),
        }
    }
}

/// A character of a boost's number.
pub open spec fn is_boost_char(c: char) -> bool {
    is_digit(c) || c == '.' || c == 'e' || c == 'E'
}

/// The first index from `i` on that is no character of a boost's number.
pub open spec fn boost_end(cs: Seq<char>, i: int) -> int
    decreases cs.len() - i,
{
    if 0 <= i < cs.len() && is_boost_char(cs[i]) {
        boost_end(cs, i + 1)
    } else {
        i
    }
}

/// A boost is a number from 0 to 10000.
pub open spec fn boost_ok(n: Seq<char>) -> bool {
    decimal_of(n) is Some && decimal_of(n)->0.upto_power(4)
}

/// The tokens of the text from `i` on, after the word read so far and the
/// tokens before it.
pub open spec fn lex_from(cs: Seq<char>, i: int, word: Seq<char>, toks: Seq<TokView>) -> Result<Seq<TokView>, ErrorView>
    decreases cs.len() - i,
{
    if i < 0 || i >= cs.len() {
        flushed(word, toks)
    } else {
        let c = cs[i];
        if c == '"' {
            match flushed(word, toks) {
                Err(e) => Err(e),
                Ok(before) => match phrase_from(cs, i + 1, Seq::empty(), false, Seq::empty(), None) {
                    Err(e) => Err(e),
                    Ok((items, j)) => if j <= i || j > cs.len() {
                        Ok(before)
                    } else if j < cs.len() && cs[j] == '~' {
                        let k = digits_end(cs, j + 1);
                        match whole_of(cs.subrange(j + 1, k), u32::MAX as int) {
                            Some(slop) => if k <= i || k > cs.len() {
                                Ok(before)
                            } else {
                                lex_from(cs, k, Seq::empty(), before.push(TokView::Phrase(items, slop)))
                            },
                            None => Err(ErrorView::Syntax("a phrase's ~ needs a number: \"...\"~2"@)),
                        }
                    } else {
                        lex_from(cs, j, Seq::empty(), before.push(TokView::Phrase(items, 0)))
                    },
                },
            }
        } else if c == '(' || c == ')' || c == '[' || c == ']' {
            match flushed(word, toks) {
                Err(e) => Err(e),
                Ok(before) => lex_from(cs, i + 1, Seq::empty(), before.push(bracket(c))),
            }
        } else if c == '^' {
            if word.len() == 0 && (i == 0 || white_space(cs[i - 1])) {
                Err(ErrorView::Syntax("^ must follow an item with no space: beer^2"@))
            } else {
                match flushed(word, toks) {
                    Err(e) => Err(e),
                    Ok(before) => {
                        let k = boost_end(cs, i + 1);
                        let n = cs.subrange(i + 1, k);
                        if !boost_ok(n) {
                            Err(ErrorView::Syntax("boost ^"@ + n + " must be a number from 0 to 10000"@))
                        } else if k <= i || k > cs.len() {
                            Ok(before)
                        } else {
                            lex_from(cs, k, Seq::empty(), before.push(TokView::Boost(n)))
                        }
                    },
                }
            }
        } else if (c == ',' && !inside_number(cs, i, word)) || (white_space(c) && !(c == ',') && !(c == '-' && word.len() == 0)) {
            match flushed(word, toks) {
                Err(e) => Err(e),
                Ok(before) => lex_from(cs, i + 1, Seq::empty(), before),
            }
        } else if c == '-' && word.len() == 0 {
            lex_from(cs, i + 1, word, toks.push(TokView::Neg))
        } else {
            lex_from(cs, i + 1, word.push(c), toks)
        }
    }
}

/// A comma between two digits of a word belongs to the number (1,000).
pub open spec fn inside_number(cs: Seq<char>, i: int, word: Seq<char>) -> bool {
    word.len() > 0 && is_digit(word.last()) && i + 1 < cs.len() && is_digit(cs[i + 1])
}

pub open spec fn bracket(c: char) -> TokView {
    if c == '(' {
        TokView::LParen
    } else if c == ')' {
        TokView::RParen
    } else if c == '[' {
        TokView::LBracket
    } else {
        TokView::RBracket
    }
}

/// A character that a backslash keeps literal inside a phrase.
pub open spec fn is_escapable(c: char) -> bool {
    c == '"' || c == '\\' || c == '_' || c == '[' || c == ']'
}

/// The items and the open choice with the word read so far added: a choice's
/// word if one is open, else a gap for a bare `_`, else a word.
pub open spec fn item_added(word: Seq<char>, escaped: bool, items: Seq<ItemView>, alts: Option<Seq<Seq<char>>>) -> (Seq<ItemView>, Option<Seq<Seq<char>>>) {
    if word.len() == 0 {
        (items, alts)
    } else {
        match alts {
            Some(a) => (items, Some(a.push(word))),
            None => if word =~= seq!['_'] && !escaped {
                (items.push(ItemView::Gap), None)
            } else {
                (items.push(ItemView::Word(word)), None)
            },
        }
    }
}

/// The items of a phrase whose body goes on at `i`, and where the text goes
/// on behind its closing quote.
pub open spec fn phrase_from(
    cs: Seq<char>,
    i: int,
    word: Seq<char>,
    escaped: bool,
    items: Seq<ItemView>,
    alts: Option<Seq<Seq<char>>>,
) -> Result<(Seq<ItemView>, int), ErrorView>
    decreases cs.len() - i,
{
    if i < 0 || i >= cs.len() {
        Err(ErrorView::Syntax("unterminated phrase: missing closing \""@))
    } else {
        let c = cs[i];
        let (items2, alts2) = item_added(word, escaped, items, alts);
        if c == '\\' {
            if i + 1 < cs.len() && is_escapable(cs[i + 1]) {
                phrase_from(cs, i + 2, word.push(cs[i + 1]), escaped || cs[i + 1] == '_', items, alts)
            } else {
                phrase_from(cs, i + 1, word.push('\\'), escaped, items, alts)
            }
        } else if c == '"' {
            if alts2 is Some {
                Err(ErrorView::Syntax("unclosed [ in a phrase"@))
            } else if items2.len() == 0 {
                Err(ErrorView::Syntax("empty phrase"@))
            } else {
                Ok((items2, i + 1))
            }
        } else if c == '[' {
            if alts2 is Some {
                Err(ErrorView::Syntax("[ ] cannot nest in a phrase"@))
            } else {
                phrase_from(cs, i + 1, Seq::empty(), false, items2, Some(Seq::empty()))
            }
        } else if c == ']' {
            match alts2 {
                Some(a) => if a.len() > 0 {
                    phrase_from(cs, i + 1, Seq::empty(), false, items2.push(ItemView::Alts(a)), None)
                } else {
                    Err(ErrorView::Syntax("empty [ ] in a phrase"@))
                },
                None => Err(ErrorView::Syntax("unbalanced ] in a phrase"@)),
            }
        } else if white_space(c) || (c == ',' && alts is Some) {
            phrase_from(cs, i + 1, Seq::empty(), false, items2, alts2)
        } else {
            phrase_from(cs, i + 1, word.push(c), escaped, items, alts)
        }
    }
}

/// The tokens of a text.
pub open spec fn tokens(cs: Seq<char>) -> Result<Seq<TokView>, ErrorView> {
    lex_from(cs, 0, Seq::empty(), Seq::empty())
}

// ---------------------------------------------------------------------------
// Words and phrases
// ---------------------------------------------------------------------------

/// `w` without the stars it starts with.
pub open spec fn no_lead(w: Seq<char>) -> Seq<char>
    decreases w.len(),
{
    if w.len() > 0 && w[0] == '*' {
        no_lead(w.subrange(1, w.len() as int))
    } else {
        w
    }
}

/// `w` without the stars it ends with.
pub open spec fn no_trail(w: Seq<char>) -> Seq<char>
    decreases w.len(),
{
    if w.len() > 0 && w.last() == '*' {
        no_trail(w.subrange(0, w.len() - 1))
    } else {
        w
    }
}

/// How many edits a word's `~`, `~1` or `~2` allows, and the word before it.
pub open spec fn fuzz_of(w: Seq<char>) -> (Seq<char>, Option<int>) {
    let n = w.len() as int;
    if n >= 1 && w[n - 1] == '~' {
        (w.subrange(0, n - 1), Some(1))
    } else if n >= 2 && w[n - 2] == '~' && (w[n - 1] == '1' || w[n - 1] == '2') {
        (w.subrange(0, n - 2), Some(if w[n - 1] == '1' { 1 } else { 2 }))
    } else {
        (w, None)
    }
}

/// A phrase of the terms, one after the other.
pub open spec fn phrase_of_terms(terms: Seq<Seq<char>>) -> QueryView {
    QueryView::Phrase {
        slots: Seq::new(terms.len(), |i: int| SlotView { offset: i, alts: seq![QueryView::Term(terms[i])] }),
        slop: 0,
    }
}

/// A plain word (analyzed, possibly into a phrase of terms) or a pattern.
pub open spec fn word_query(w: Seq<char>) -> Result<Option<QueryView>, ErrorView> {
    let lead = w.len() > 0 && w[0] == '*';
    let core = no_lead(w);
    let trail = core.len() > 0 && core.last() == '*';
    let (core, fuzz) = fuzz_of(no_trail(core));
    if !lead && !trail && fuzz is None {
        let terms = terms_of(w);
        if terms.len() == 0 {
            Ok(None)
        } else if terms.len() == 1 {
            Ok(Some(QueryView::Term(terms[0])))
        } else {
            Ok(Some(phrase_of_terms(terms)))
        }
    } else {
        let terms = terms_of(core);
        if terms.len() != 1 || (fuzz is Some && (lead || trail)) {
            Err(ErrorView::BadPattern(w))
        } else if fuzz is Some {
            Ok(Some(QueryView::Fuzzy(terms[0], fuzz->0)))
        } else if lead {
            Ok(Some(QueryView::Fragment(terms[0])))
        } else {
            Ok(Some(QueryView::Prefix(terms[0])))
        }
    }
}

/// The alternatives among the first `n` words of a choice.
pub open spec fn choices(ws: Seq<Seq<char>>, n: int) -> Result<Seq<QueryView>, ErrorView>
    decreases n,
{
    if n <= 0 {
        Ok(Seq::empty())
    } else {
        match choices(ws, n - 1) {
            Err(e) => Err(e),
            Ok(alts) => match word_query(ws[n - 1]) {
                Err(e) => Err(e),
                Ok(None) => Ok(alts),
                Ok(Some(q)) => if q is Phrase {
                    Err(ErrorView::Syntax(quoted_of(ws[n - 1]) + ": a [ ] choice in a phrase must be one word"@))
                } else {
                    Ok(alts.push(q))
                },
            },
        }
    }
}

/// The slots of the first `n` items of a phrase, and the offset of the next.
pub open spec fn slots_of(items: Seq<ItemView>, n: int) -> Result<(Seq<SlotView>, int), ErrorView>
    decreases n,
{
    if n <= 0 {
        Ok((Seq::empty(), 0))
    } else {
        match slots_of(items, n - 1) {
            Err(e) => Err(e),
            Ok((slots, offset)) => slots_with(items[n - 1], slots, offset),
        }
    }
}

/// The slots with those of one more item, and the offset of the next. Gaps
/// before the first word are ignored.
pub open spec fn slots_with(item: ItemView, slots: Seq<SlotView>, offset: int) -> Result<(Seq<SlotView>, int), ErrorView> {
    match item {
        ItemView::Gap => Ok((slots, if slots.len() > 0 { offset + 1 } else { offset })),
        ItemView::Word(w) => match word_query(w) {
            Err(e) => Err(e),
            Ok(None) => Ok((slots, offset)),
            Ok(Some(q)) => match q {
                QueryView::Phrase { slots: inner, slop } => Ok((slots + moved(inner, offset), offset + inner.last().offset + 1)),
                _ => Ok((slots.push(SlotView { offset, alts: seq![q] }), offset + 1)),
            },
        },
        ItemView::Alts(ws) => match choices(ws, ws.len() as int) {
            Err(e) => Err(e),
            Ok(alts) => if alts.len() > 0 {
                Ok((slots.push(SlotView { offset, alts }), offset + 1))
            } else {
                Ok((slots, offset))
            },
        },
    }
}

/// The slots with their offsets moved.
pub open spec fn moved(slots: Seq<SlotView>, by: int) -> Seq<SlotView> {
    slots.map_values(|s: SlotView| SlotView { offset: by + s.offset, alts: s.alts })
}

/// The query of a phrase.
pub open spec fn phrase_query(items: Seq<ItemView>, slop: int) -> Result<Option<QueryView>, ErrorView> {
    match slots_of(items, items.len() as int) {
        Err(e) => Err(e),
        Ok((slots, offset)) => if slots.len() == 0 {
            Ok(None)
        } else if slots.len() == 1 {
            if slots[0].alts.len() == 1 {
                Ok(Some(slots[0].alts[0]))
            } else {
                Ok(Some(QueryView::Or(slots[0].alts)))
            }
        } else {
            Ok(Some(QueryView::Phrase { slots, slop }))
        },
    }
}

// ---------------------------------------------------------------------------
// Expressions
// ---------------------------------------------------------------------------

/// What an expression is, and where the tokens go on behind it.
pub type Parsed = (Result<Option<QueryView>, ErrorView>, int);

pub open spec fn fail(e: ErrorView) -> Parsed {
    (Err(e), 0)
}

/// One part as it is, several joined by `OR`.
pub open spec fn any_of(parts: Seq<QueryView>) -> Option<QueryView> {
    if parts.len() == 0 {
        None
    } else if parts.len() == 1 {
        Some(parts[0])
    } else {
        Some(QueryView::Or(parts))
    }
}

/// One part as it is, several joined by `AND`.
pub open spec fn all_of(parts: Seq<QueryView>) -> Option<QueryView> {
    if parts.len() == 0 {
        None
    } else if parts.len() == 1 {
        Some(parts[0])
    } else {
        Some(QueryView::And(parts))
    }
}

pub open spec fn with_part(parts: Seq<QueryView>, q: Option<QueryView>) -> Seq<QueryView> {
    match q {
        Some(x) => parts.push(x),
        None => parts,
    }
}

/// Operands joined by `OR`.
pub open spec fn or_from(t: Seq<TokView>, pos: int, parts: Seq<QueryView>) -> Parsed
    decreases t.len() - pos, 5nat,
{
    match and_from(t, pos, Seq::empty()) {
        (Err(e), _) => fail(e),
        (Ok(q), p) => {
            let parts2 = with_part(parts, q);
            if pos <= p < t.len() && t[p] is Or {
                or_from(t, p + 1, parts2)
            } else {
                (Ok(any_of(parts2)), p)
            }
        },
    }
}

/// A token that ends a conjunction.
pub open spec fn ends_and(t: Seq<TokView>, pos: int) -> bool {
    pos < 0 || pos >= t.len() || t[pos] is RParen || t[pos] is RBracket || t[pos] is Or
}

/// Operands side by side or joined by `AND`, some of them negated. A stray
/// `-` / `NOT` with nothing to negate is ignored.
pub open spec fn and_from(t: Seq<TokView>, pos: int, parts: Seq<QueryView>) -> Parsed
    decreases t.len() - pos, 4nat,
{
    if ends_and(t, pos) {
        (Ok(all_of(parts)), pos)
    } else if t[pos] is And {
        and_from(t, pos + 1, parts)
    } else if t[pos] is Neg {
        if ends_and(t, pos + 1) || t[pos + 1] is And {
            and_from(t, pos + 1, parts)
        } else {
            match near_from(t, pos + 1) {
                (Err(e), _) => fail(e),
                (Ok(q), p) => if pos < p <= t.len() {
                    and_from(t, p, with_part(parts, match q { Some(x) => Some(QueryView::Not(Box::new(x))), None => None }))
                } else {
                    fail(ErrorView::Empty)
                },
            }
        }
    } else {
        match near_from(t, pos) {
            (Err(e), _) => fail(e),
            (Ok(q), p) => if pos < p <= t.len() {
                and_from(t, p, with_part(parts, q))
            } else {
                fail(ErrorView::Empty)
            },
        }
    }
}

/// The name of a proximity operator.
pub open spec fn op_name(ordered: bool) -> Seq<char> {
    if ordered {
        "THEN/"@
    } else {
        "NEAR/"@
    }
}

/// The decimal digits of a number.
pub open spec fn number_text(n: int) -> Seq<char>
    decreases n,
{
    if n < 10 {
        seq![(48 + n) as u8 as char]
    } else {
        number_text(n / 10).push((48 + n % 10) as u8 as char)
    }
}

/// Items joined by `THEN/N` / `NEAR/N`, left to right.
pub open spec fn near_from(t: Seq<TokView>, pos: int) -> Parsed
    decreases t.len() - pos, 3nat,
{
    match boosted_from(t, pos) {
        (Err(e), _) => fail(e),
        (Ok(q), p) => if pos < p <= t.len() {
            near_rest(t, p, q)
        } else {
            fail(ErrorView::Empty)
        },
    }
}

/// More operands of `THEN/N` / `NEAR/N` after `left`.
pub open spec fn near_rest(t: Seq<TokView>, pos: int, left: Option<QueryView>) -> Parsed
    decreases t.len() - pos, 3nat,
{
    if 0 <= pos < t.len() && t[pos] is Near {
        let (gap, ordered) = (t[pos]->Near_0, t[pos]->Near_1);
        let name = op_name(ordered) + number_text(gap);
        if ends_and(t, pos + 1) || t[pos + 1] is And || t[pos + 1] is Near {
            fail(ErrorView::Syntax(name + " needs an item on its right"@))
        } else {
            match boosted_from(t, pos + 1) {
                (Err(e), _) => fail(e),
                (Ok(right), p) => match (left, right) {
                    (Some(l), Some(r)) => if pos < p <= t.len() {
                        near_rest(t, p, Some(QueryView::Near { left: Box::new(l), right: Box::new(r), gap, ordered }))
                    } else {
                        fail(ErrorView::Empty)
                    },
                    _ => fail(ErrorView::Syntax("both sides of "@ + name + " need a searchable term"@)),
                },
            }
        }
    } else {
        (Ok(left), pos)
    }
}

/// An item with its boost, if it has one.
pub open spec fn boosted_from(t: Seq<TokView>, pos: int) -> Parsed
    decreases t.len() - pos, 2nat,
{
    match primary_from(t, pos) {
        (Err(e), _) => fail(e),
        (Ok(q), p) => if 0 <= p < t.len() && t[p] is Boost {
            (Ok(match q { Some(x) => Some(QueryView::Boost(Box::new(x), t[p]->Boost_0)), None => None }), p + 1)
        } else {
            (Ok(q), p)
        },
    }
}

/// The token at `pos` is the word `w`.
pub open spec fn word_at(t: Seq<TokView>, pos: int, w: Seq<char>) -> bool {
    0 <= pos < t.len() && t[pos] is Word && t[pos]->Word_0 =~= w
}

/// How many items `AT LEAST n` / `AT LEAST p%` asks for.
pub open spec fn threshold(n: Seq<char>, len: int) -> Result<int, ErrorView> {
    if n.len() > 0 && n.last() == '%' {
        let p = decimal_of(n.subrange(0, n.len() - 1));
        if p is Some && p->0.upto_power(2) {
            Ok(p->0.percent_of(len))
        } else {
            Err(ErrorView::Syntax("AT LEAST "@ + n + " OF: a percentage from 0% to 100%"@))
        }
    } else {
        match whole_of(n, u64::MAX as int) {
            Some(v) => Ok(v),
            None => Err(ErrorView::Syntax("AT LEAST "@ + n + " OF: not a number"@)),
        }
    }
}

/// At least `min` of the items.
pub open spec fn at_least(min: int, items: Seq<QueryView>) -> Result<Option<QueryView>, ErrorView> {
    if min == 0 {
        Err(ErrorView::Syntax("AT LEAST 0 OF matches everything; use a positive count"@))
    } else if min == 1 {
        Ok(any_of(items))
    } else if min >= items.len() {
        Ok(all_of(items))
    } else {
        Ok(Some(QueryView::AtLeast { min, of: items }))
    }
}

/// The item at `pos`.
pub open spec fn primary_from(t: Seq<TokView>, pos: int) -> Parsed
    decreases t.len() - pos, 1nat,
{
    if pos < 0 || pos >= t.len() {
        fail(ErrorView::Syntax("the query ends too early"@))
    } else {
        match t[pos] {
            TokView::LParen => match or_from(t, pos + 1, Seq::empty()) {
                (Err(e), _) => fail(e),
                (Ok(q), p) => if 0 <= p < t.len() && t[p] is RParen {
                    (Ok(q), p + 1)
                } else {
                    fail(ErrorView::UnbalancedParens)
                },
            },
            TokView::LBracket => match list_from(t, pos + 1, Seq::empty(), false) {
                (Err(e), _) => fail(e),
                (Ok(items), p) => (Ok(any_of(items)), p),
            },
            TokView::Phrase(items, slop) => (phrase_query(items, slop), pos + 1),
            TokView::Word(w) => if w =~= seq!['A', 'L', 'L'] && word_at(t, pos + 1, seq!['O', 'F']) {
                if pos + 2 < t.len() && t[pos + 2] is LBracket {
                    match list_from(t, pos + 3, Seq::empty(), false) {
                        (Err(e), _) => fail(e),
                        (Ok(items), p) => (Ok(all_of(items)), p),
                    }
                } else {
                    fail(ErrorView::Syntax("ALL OF needs a [list]"@))
                }
            } else if w =~= seq!['A', 'T'] && word_at(t, pos + 1, seq!['L', 'E', 'A', 'S', 'T']) && word_at(t, pos + 3, seq!['O', 'F'])
                && t[pos + 2] is Word {
                if pos + 4 < t.len() && t[pos + 4] is LBracket {
                    match list_from(t, pos + 5, Seq::empty(), false) {
                        (Err(e), _) => fail(e),
                        (Ok(items), p) => match threshold(t[pos + 2]->Word_0, items.len() as int) {
                            Err(e) => fail(e),
                            Ok(min) => (at_least(min, items), p),
                        },
                    }
                } else {
                    fail(ErrorView::Syntax("AT LEAST n OF needs a [list]"@))
                }
            } else {
                (word_query(w), pos + 1)
            },
            TokView::RParen => fail(ErrorView::UnbalancedParens),
            TokView::RBracket => fail(ErrorView::UnbalancedParens),
            TokView::Near(gap, ordered) => fail(ErrorView::Syntax(op_name(ordered) + number_text(gap) + " needs an item on its left"@)),
            TokView::Boost(_) => fail(ErrorView::Syntax("^ must follow an item with no space: beer^2"@)),
            _ => fail(ErrorView::Syntax("- / NOT must stand before an item"@)),
        }
    }
}

/// The items of a `[list]`, after its `[`.
pub open spec fn list_from(t: Seq<TokView>, pos: int, items: Seq<QueryView>, some: bool) -> (Result<Seq<QueryView>, ErrorView>, int)
    decreases t.len() - pos, 4nat,
{
    if pos < 0 || pos >= t.len() {
        (Err(ErrorView::UnbalancedParens), 0)
    } else if t[pos] is RBracket {
        if some {
            (Ok(items), pos + 1)
        } else {
            (Err(ErrorView::Syntax("empty [ ]"@)), 0)
        }
    } else if t[pos] is And || t[pos] is Or || t[pos] is Neg {
        (Err(ErrorView::Syntax("AND / OR / NOT inside [ ] need parentheses: [a (b OR c)]"@)), 0)
    } else {
        match near_from(t, pos) {
            (Err(e), _) => (Err(e), 0),
            (Ok(q), p) => if pos < p <= t.len() {
                list_from(t, p, with_part(items, q), true)
            } else {
                (Err(ErrorView::Empty), 0)
            },
        }
    }
}

/// The query that a text writes.
pub open spec fn query_of(cs: Seq<char>) -> Result<QueryView, ErrorView> {
    match tokens(cs) {
        Err(e) => Err(e),
        Ok(t) => match or_from(t, 0, Seq::empty()) {
            (Err(e), _) => Err(e),
            (Ok(q), p) => if p != t.len() {
                Err(ErrorView::UnbalancedParens)
            } else {
                match q {
                    None => Err(ErrorView::Empty),
                    Some(q) => if plan_of(q) is None {
                        Err(ErrorView::UnboundedNegation)
                    } else {
                        Ok(q)
                    },
                }
            },
        },
    }
}

} // verus!
