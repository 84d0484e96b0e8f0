//! From a query's text to its tokens.

use vstd::prelude::*;
use crate::error::QueryError;
use crate::grammar::{
    boost_end, boost_ok, flushed, is_escapable, is_near, is_then, item_added, lex_from, phrase_from, quoted_of, tokens,
    white_space, word_token, ErrorView, ItemView, TokView,
};
use crate::numeral::{is_digit_char, parse_decimal, parse_whole, skip_digits};
use crate::text::{fits, string_of};
use crate::tokenize::chars_view;

verus! {

/// `char::is_whitespace`: whether the character has the Unicode property
/// `White_Space`, that is, whether it is one of those that [`white_space`]
/// lists.
#[verifier::external_body]
pub(crate) fn is_white(c: char) -> (r: bool)
    ensures
        r == white_space(c),
{
    c.is_whitespace()
}

/// `format!` with `{:?}` of a string: the text quoted and escaped as a string
/// literal.
#[verifier::external_body]
pub(crate) fn quoted(s: &str) -> (r: String)
    ensures
        r@ == quoted_of(s@),
{
    format!("{:?}", s)
}

impl QueryError {
    /// What the error says.
    pub open spec fn view(self) -> ErrorView {
        match self {
            QueryError::Empty => ErrorView::Empty,
            QueryError::UnbalancedParens => ErrorView::UnbalancedParens,
            QueryError::UnboundedNegation => ErrorView::UnboundedNegation,
            QueryError::BadPattern(w) => ErrorView::BadPattern(w@),
            QueryError::Syntax(m) => ErrorView::Syntax(m@),
        }
    }

    /// The message for the user.
    pub fn message(&self) -> (r: String)
        ensures
            r@ == match *self {
                QueryError::Empty => "query has no searchable terms"@,
                QueryError::UnbalancedParens => "unbalanced parentheses or brackets"@,
                QueryError::UnboundedNegation => "negation needs a positive term beside it"@,
                QueryError::BadPattern(w) => "pattern "@ + quoted_of(w@) + " must be one term: word*, *fragment*, or word~ / word~2"@,
                QueryError::Syntax(m) => m@,
            },
    {
        match self {
            QueryError::Empty => "query has no searchable terms".to_owned(),
            QueryError::UnbalancedParens => "unbalanced parentheses or brackets".to_owned(),
            QueryError::UnboundedNegation => "negation needs a positive term beside it".to_owned(),
            QueryError::BadPattern(w) => {
                let q: String = quoted(w.as_str());
                joined(&vec!["pattern ", q.as_str(), " must be one term: word*, *fragment*, or word~ / word~2"])
            },
            QueryError::Syntax(m) => m.clone(),
        }
    }
}

/// The texts one after the other.
pub open spec fn concat_views(s: Seq<&str>, n: int) -> Seq<char>
    decreases n,
{
    if n <= 0 {
        Seq::empty()
    } else {
        concat_views(s, n - 1) + s[n - 1]@
    }
}

/// The texts one after the other.
pub(crate) fn joined(parts: &Vec<&str>) -> (r: String)
    ensures
        r@ == concat_views(parts@, parts@.len() as int),
        parts@.len() == 2 ==> r@ == parts@[0]@ + parts@[1]@,
        parts@.len() == 3 ==> r@ == parts@[0]@ + parts@[1]@ + parts@[2]@,
        parts@.len() == 4 ==> r@ == parts@[0]@ + parts@[1]@ + parts@[2]@ + parts@[3]@,
{
    let mut out: String = String::new();
    let mut i: usize = 0;
    while i < parts.len()
        invariant
            i <= parts@.len(),
            out@ == concat_views(parts@, i as int),
        decreases parts@.len() - i,
    {
        let ghost was = out@;
        let cs: Vec<char> = crate::text::chars_of(parts[i]);
        let mut k: usize = 0;
        while k < cs.len()
            invariant
                k <= cs@.len(),
                out@ == was + cs@.take(k as int),
            decreases cs@.len() - k,
        {
            out.push(cs[k]);
            proof {
                assert(cs@.take(k + 1) =~= cs@.take(k as int).push(cs@[k as int]));
                assert(out@ =~= was + cs@.take(k + 1));
            }
            k = k + 1;
        }
        proof {
            assert(cs@.take(k as int) =~= cs@);
        }
        i = i + 1;
    }
    proof {
        reveal_with_fuel(concat_views, 5);
        if parts@.len() >= 1 {
            assert(concat_views(parts@, 1) =~= parts@[0]@);
        }
        if parts@.len() == 2 {
            assert(out@ =~= parts@[0]@ + parts@[1]@);
        }
        if parts@.len() == 3 {
            assert(out@ =~= parts@[0]@ + parts@[1]@ + parts@[2]@);
        }
        if parts@.len() == 4 {
            assert(out@ =~= parts@[0]@ + parts@[1]@ + parts@[2]@ + parts@[3]@);
        }
    }
    out
}

/// One item inside quotes.
pub enum PhraseItem {
    Word(Vec<char>),
    Gap,
    Alts(Vec<Vec<char>>),
}

impl PhraseItem {
    pub open spec fn view(self) -> ItemView {
        match self {
            PhraseItem::Word(w) => ItemView::Word(w@),
            PhraseItem::Gap => ItemView::Gap,
            PhraseItem::Alts(ws) => ItemView::Alts(chars_view(ws@)),
        }
    }
}

pub enum Tok {
    LParen,
    RParen,
    LBracket,
    RBracket,
    Neg,
    And,
    Or,
    /// `THEN/N` (ordered) or `NEAR/N`.
    Near(u32, bool),
    Boost(Vec<char>),
    Phrase(Vec<PhraseItem>, u32),
    Word(Vec<char>),
}

/// What a list of items says.
pub open spec fn item_views(s: Seq<PhraseItem>) -> Seq<ItemView> {
    s.map_values(|x: PhraseItem| x.view())
}

impl Tok {
    pub open spec fn view(self) -> TokView {
        match self {
            Tok::LParen => TokView::LParen,
            Tok::RParen => TokView::RParen,
            Tok::LBracket => TokView::LBracket,
            Tok::RBracket => TokView::RBracket,
            Tok::Neg => TokView::Neg,
            Tok::And => TokView::And,
            Tok::Or => TokView::Or,
            Tok::Near(n, o) => TokView::Near(n as int, o),
            Tok::Boost(n) => TokView::Boost(n@),
            Tok::Phrase(items, slop) => TokView::Phrase(item_views(items@), slop as int),
            Tok::Word(w) => TokView::Word(w@),
        }
    }
}

/// What a list of tokens says.
pub open spec fn tok_views(s: Seq<Tok>) -> Seq<TokView> {
    s.map_values(|x: Tok| x.view())
}

/// The longest text of an item.
pub open spec fn item_len(x: ItemView) -> int {
    match x {
        ItemView::Word(w) => w.len() as int,
        ItemView::Gap => 1,
        ItemView::Alts(ws) => 1,
    }
}

/// How many words the items can come to.
pub open spec fn items_len(items: Seq<ItemView>, n: int) -> int
    decreases n,
{
    if n <= 0 {
        0
    } else {
        items_len(items, n - 1) + item_len(items[n - 1])
    }
}

/// No choice holds a word longer than `max`.
pub open spec fn alts_fit(items: Seq<ItemView>, max: int) -> bool {
    forall|i: int, j: int| 0 <= i < items.len() && items[i] is Alts && 0 <= j < items[i]->Alts_0.len() ==> (#[trigger] items[i]->Alts_0[j]).len() <= max
}

/// The texts of a token come from a text of `max` characters.
pub open spec fn tok_fits(t: TokView, max: int) -> bool {
    match t {
        TokView::Word(w) => w.len() <= max,
        TokView::Phrase(items, slop) => items_len(items, items.len() as int) <= max && alts_fit(items, max),
        TokView::Near(n, o) => 0 <= n <= u32::MAX,
        _ => true,
    }
}

/// All tokens come from a text of `max` characters.
pub open spec fn toks_fit(t: Seq<TokView>, max: int) -> bool {
    forall|i: int| 0 <= i < t.len() ==> tok_fits(#[trigger] t[i], max)
}

/// A slice of the text as a vector.
fn sub_vec(cs: &[char], from: usize, to: usize) -> (r: Vec<char>)
    requires
        from <= to <= cs@.len(),
    ensures
        r@ == cs@.subrange(from as int, to as int),
{
    let mut v: Vec<char> = Vec::new();
    let mut i: usize = from;
    while i < to
        invariant
            from <= i <= to <= cs@.len(),
            v@ == cs@.subrange(from as int, i as int),
        decreases to - i,
    {
        v.push(cs[i]);
        proof {
            assert(cs@.subrange(from as int, i + 1) =~= cs@.subrange(from as int, i as int).push(cs@[i as int]));
        }
        i = i + 1;
    }
    v
}

/// The string of some characters.
pub(crate) fn text_of(cs: &Vec<char>) -> (r: String)
    ensures
        r@ == cs@,
{
    let r: String = string_of(cs.as_slice(), 0, cs.len());
    assert(cs@.subrange(0, cs@.len() as int) =~= cs@);
    r
}

fn word_is_then(w: &Vec<char>) -> (r: bool)
    requires
        w@.len() >= 4,
    ensures
        r == is_then(w@.subrange(0, 4)),
{
    let r: bool = w[0] == 'T' && w[1] == 'H' && w[2] == 'E' && w[3] == 'N';
    proof {
        let s = w@.subrange(0, 4);
        assert(s[0] == w@[0] && s[1] == w@[1] && s[2] == w@[2] && s[3] == w@[3]);
        if r {
            assert(s =~= seq!['T', 'H', 'E', 'N']);
        }
    }
    r
}

fn word_is_near(w: &Vec<char>) -> (r: bool)
    requires
        w@.len() >= 4,
    ensures
        r == is_near(w@.subrange(0, 4)),
{
    let r: bool = w[0] == 'N' && w[1] == 'E' && w[2] == 'A' && w[3] == 'R';
    proof {
        let s = w@.subrange(0, 4);
        assert(s[0] == w@[0] && s[1] == w@[1] && s[2] == w@[2] && s[3] == w@[3]);
        if r {
            assert(s =~= seq!['N', 'E', 'A', 'R']);
        }
    }
    r
}

/// The token of a bare word.
fn token_of(w: Vec<char>) -> (r: Result<Tok, QueryError>)
    ensures
        match r {
            Ok(t) => word_token(w@) == Ok::<TokView, ErrorView>(t.view()) && tok_fits(t.view(), w@.len() as int),
            Err(e) => word_token(w@) == Err::<TokView, ErrorView>(e.view()),
        },
{
    let n: usize = w.len();
    if n == 3 && w[0] == 'A' && w[1] == 'N' && w[2] == 'D' {
        assert(w@ =~= seq!['A', 'N', 'D']);
        return Ok(Tok::And);
    }
    if n == 2 && w[0] == 'O' && w[1] == 'R' {
        assert(w@ =~= seq!['O', 'R']);
        return Ok(Tok::Or);
    }
    if n == 3 && w[0] == 'N' && w[1] == 'O' && w[2] == 'T' {
        assert(w@ =~= seq!['N', 'O', 'T']);
        return Ok(Tok::Neg);
    }
    if n >= 4 {
        let then: bool = word_is_then(&w);
        let near: bool = word_is_near(&w);
        proof {
            if n == 4 {
                assert(w@.subrange(0, 4) =~= w@);
            }
        }
        if then || near {
            if n == 4 {
                let t: String = text_of(&w);
                return Err(QueryError::Syntax(joined(&vec![t.as_str(), " needs a distance: ", t.as_str(), "/N"])));
            }
            if w[4] == '/' {
                let rest: Vec<char> = sub_vec(w.as_slice(), 5, n);
                return match parse_whole(rest.as_slice(), u32::MAX as u64) {
                    Some(v) => Ok(Tok::Near(v as u32, then)),
                    None => {
                        let t: String = text_of(&w);
                        Err(QueryError::Syntax(joined(&vec![t.as_str(), ": the distance must be a number"])))
                    },
                };
            }
        }
    }
    Ok(Tok::Word(w))
}

/// Add the word read so far to the tokens, if there is one.
fn flush(word: &mut Vec<char>, toks: &mut Vec<Tok>, Ghost(max): Ghost<int>) -> (r: Result<(), QueryError>)
    requires
        toks_fit(tok_views(old(toks)@), max),
        old(word)@.len() <= max,
    ensures
        match r {
            Ok(_) => {
                &&& flushed(old(word)@, tok_views(old(toks)@)) == Ok::<Seq<TokView>, ErrorView>(tok_views(final(toks)@))
                &&& final(word)@.len() == 0
                &&& toks_fit(tok_views(final(toks)@), max)
                &&& final(toks)@.len() <= old(toks)@.len() + old(word)@.len()
            },
            Err(e) => flushed(old(word)@, tok_views(old(toks)@)) == Err::<Seq<TokView>, ErrorView>(e.view()),
        },
{
    if word.len() == 0 {
        return Ok(());
    }
    let mut w: Vec<char> = Vec::new();
    std::mem::swap(&mut w, word);
    match token_of(w) {
        Ok(t) => {
            let ghost was = toks@;
            toks.push(t);
            proof {
                assert(tok_views(toks@) =~= tok_views(was).push(t.view()));
            }
            Ok(())
        },
        Err(e) => Err(e),
    }
}

fn escapable(c: char) -> (r: bool)
    ensures
        r == is_escapable(c),
{
    c == '"' || c == '\\' || c == '_' || c == '[' || c == ']'
}

/// The open choice as it reads.
spec fn alts_view(a: Option<Vec<Vec<char>>>) -> Option<Seq<Seq<char>>> {
    match a {
        Some(v) => Some(chars_view(v@)),
        None => None,
    }
}

/// The words of an open choice are short.
spec fn open_fits(a: Option<Vec<Vec<char>>>, max: int) -> bool {
    a is Some ==> forall|j: int| 0 <= j < a->0@.len() ==> (#[trigger] a->0@[j])@.len() <= max
}

/// Add the word read so far to a phrase.
fn push_item(word: &mut Vec<char>, escaped: bool, items: &mut Vec<PhraseItem>, alts: &mut Option<Vec<Vec<char>>>, Ghost(max): Ghost<int>)
    requires
        items_len(item_views(old(items)@), old(items)@.len() as int) + old(word)@.len() <= max,
        alts_fit(item_views(old(items)@), max),
        open_fits(*old(alts), max),
    ensures
        final(word)@.len() == 0,
        (item_views(final(items)@), alts_view(*final(alts))) == item_added(old(word)@, escaped, item_views(old(items)@), alts_view(*old(alts))),
        items_len(item_views(final(items)@), final(items)@.len() as int) <= items_len(item_views(old(items)@), old(items)@.len() as int) + old(word)@.len(),
        alts_fit(item_views(final(items)@), max),
        open_fits(*final(alts), max),
{
    if word.len() == 0 {
        return;
    }
    proof {
        lemma_items_len_nonneg(item_views(items@), items@.len() as int);
    }
    let mut w: Vec<char> = Vec::new();
    std::mem::swap(&mut w, word);
    let ghost was = items@;
    let ghost wv = w@;
    let open: bool = alts.is_some();
    if open {
        let mut taken: Option<Vec<Vec<char>>> = None;
        std::mem::swap(&mut taken, alts);
        if let Some(a) = taken {
            let mut list: Vec<Vec<char>> = a;
            let ghost before = list@;
            list.push(w);
            proof {
                assert(chars_view(list@) =~= chars_view(before).push(wv));
            }
            *alts = Some(list);
        }
    } else {
        let gap: bool = w.len() == 1 && w[0] == '_' && !escaped;
        proof {
            if wv.len() == 1 && wv[0] == '_' {
                assert(wv =~= seq!['_']);
            }
        }
        let item: PhraseItem = if gap {
            PhraseItem::Gap
        } else {
            PhraseItem::Word(w)
        };
        items.push(item);
        proof {
            assert(item_views(items@) =~= item_views(was).push(item.view()));
            lemma_items_len_push(item_views(was), item.view());
            lemma_alts_fit_push(item_views(was), item.view(), max);
        }
    }
}

proof fn lemma_items_len_nonneg(items: Seq<ItemView>, n: int)
    ensures
        items_len(items, n) >= 0,
    decreases n,
{
    if n > 0 {
        lemma_items_len_nonneg(items, n - 1);
    }
}

proof fn lemma_items_len_push(items: Seq<ItemView>, x: ItemView)
    ensures
        items_len(items.push(x), items.len() as int + 1) == items_len(items, items.len() as int) + item_len(x),
{
    lemma_items_len_same(items, items.push(x), items.len() as int);
}

proof fn lemma_items_len_same(a: Seq<ItemView>, b: Seq<ItemView>, n: int)
    requires
        n <= a.len(),
        n <= b.len(),
        forall|i: int| 0 <= i < n ==> a[i] == b[i],
    ensures
        items_len(a, n) == items_len(b, n),
    decreases n,
{
    if n > 0 {
        lemma_items_len_same(a, b, n - 1);
    }
}

proof fn lemma_alts_fit_push(items: Seq<ItemView>, x: ItemView, max: int)
    requires
        alts_fit(items, max),
        x is Alts ==> forall|j: int| 0 <= j < x->Alts_0.len() ==> (#[trigger] x->Alts_0[j]).len() <= max,
    ensures
        alts_fit(items.push(x), max),
{
    let b = items.push(x);
    assert forall|i: int, j: int| 0 <= i < b.len() && b[i] is Alts && 0 <= j < b[i]->Alts_0.len() implies (#[trigger] b[i]->Alts_0[j]).len() <= max by {
        if i < items.len() {
            assert(b[i] == items[i]);
            assert(items[i]->Alts_0[j].len() <= max);
        }
    }
}

/// Lex a phrase's body; `start` is just past the opening quote. Returns the
/// items and where the text goes on.
fn lex_phrase(cs: &Vec<char>, start: usize) -> (r: Result<(Vec<PhraseItem>, usize), QueryError>)
    requires
        start <= cs@.len(),
    ensures
        match r {
            Ok((items, j)) => {
                &&& phrase_from(cs@, start as int, Seq::empty(), false, Seq::empty(), None) == Ok::<(Seq<ItemView>, int), ErrorView>((item_views(items@), j as int))
                &&& start < j <= cs@.len()
                &&& items_len(item_views(items@), items@.len() as int) <= cs@.len()
                &&& alts_fit(item_views(items@), cs@.len() as int)
            },
            Err(e) => phrase_from(cs@, start as int, Seq::empty(), false, Seq::empty(), None) == Err::<(Seq<ItemView>, int), ErrorView>(e.view()),
        },
{
    let n: usize = cs.len();
    let ghost max = n as int;
    let mut items: Vec<PhraseItem> = Vec::new();
    let mut word: Vec<char> = Vec::new();
    let mut alts: Option<Vec<Vec<char>>> = None;
    let mut escaped: bool = false;
    let mut i: usize = start;
    let ghost whole = phrase_from(cs@, start as int, Seq::empty(), false, Seq::empty(), None);
    proof {
        assert(item_views(items@) =~= Seq::empty());
        assert(word@ =~= Seq::empty());
    }
    loop
        invariant
            n == cs@.len(),
            max == n,
            start <= i <= n,
            whole == phrase_from(cs@, start as int, Seq::empty(), false, Seq::empty(), None),
            whole == phrase_from(cs@, i as int, word@, escaped, item_views(items@), alts_view(alts)),
            items_len(item_views(items@), items@.len() as int) + word@.len() <= i,
            alts_fit(item_views(items@), max),
            open_fits(alts, max),
        decreases n - i,
    {
        if i >= n {
            return Err(QueryError::Syntax("unterminated phrase: missing closing \"".to_owned()));
        }
        let c: char = cs[i];
        let ghost (iv, av) = item_added(word@, escaped, item_views(items@), alts_view(alts));
        if c == '\\' {
            if i + 1 < n && escapable(cs[i + 1]) {
                let e: char = cs[i + 1];
                escaped = escaped || e == '_';
                word.push(e);
                i = i + 2;
            } else {
                word.push('\\');
                i = i + 1;
            }
        } else if c == '"' {
            push_item(&mut word, escaped, &mut items, &mut alts, Ghost(max));
            if alts.is_some() {
                return Err(QueryError::Syntax("unclosed [ in a phrase".to_owned()));
            }
            if items.len() == 0 {
                return Err(QueryError::Syntax("empty phrase".to_owned()));
            }
            return Ok((items, i + 1));
        } else if c == '[' {
            push_item(&mut word, escaped, &mut items, &mut alts, Ghost(max));
            escaped = false;
            if alts.is_some() {
                return Err(QueryError::Syntax("[ ] cannot nest in a phrase".to_owned()));
            }
            let none: Vec<Vec<char>> = Vec::new();
            proof {
                assert(chars_view(none@) =~= Seq::empty());
                assert(word@ =~= Seq::empty());
            }
            alts = Some(none);
            i = i + 1;
        } else if c == ']' {
            push_item(&mut word, escaped, &mut items, &mut alts, Ghost(max));
            escaped = false;
            let mut taken: Option<Vec<Vec<char>>> = None;
            std::mem::swap(&mut taken, &mut alts);
            match taken {
                Some(a) => {
                    if a.len() == 0 {
                        return Err(QueryError::Syntax("empty [ ] in a phrase".to_owned()));
                    }
                    let ghost was = items@;
                    let item: PhraseItem = PhraseItem::Alts(a);
                    items.push(item);
                    proof {
                        assert(item_views(items@) =~= item_views(was).push(item.view()));
                        lemma_items_len_push(item_views(was), item.view());
                        assert forall|j: int| 0 <= j < item.view()->Alts_0.len() implies (#[trigger] item.view()->Alts_0[j]).len() <= max by {
                            assert(a@[j]@.len() <= max);
                        }
                        lemma_alts_fit_push(item_views(was), item.view(), max);
                        assert(word@ =~= Seq::empty());
                    }
                },
                None => {
                    return Err(QueryError::Syntax("unbalanced ] in a phrase".to_owned()));
                },
            }
            i = i + 1;
        } else if is_white(c) || (c == ',' && alts.is_some()) {
            push_item(&mut word, escaped, &mut items, &mut alts, Ghost(max));
            escaped = false;
            proof {
                assert(word@ =~= Seq::empty());
            }
            i = i + 1;
        } else {
            word.push(c);
            i = i + 1;
        }
    }
}

/// Whether a boost's number lies from 0 to 10000.
fn boost_in_range(n: &Vec<char>) -> (r: bool)
    requires
        fits(n@),
    ensures
        r == boost_ok(n@),
{
    match parse_decimal(n.as_slice()) {
        Some(v) => v.upto_power(4, Ghost(crate::numeral::decimal_of(n@)->0)),
        None => false,
    }
}

/// The tokens of a text.
pub fn lex(cs: &Vec<char>) -> (r: Result<Vec<Tok>, QueryError>)
    requires
        fits(cs@),
    ensures
        match r {
            Ok(t) => tokens(cs@) == Ok::<Seq<TokView>, ErrorView>(tok_views(t@)) && toks_fit(tok_views(t@), cs@.len() as int) && t@.len() <= cs@.len(),
            Err(e) => tokens(cs@) == Err::<Seq<TokView>, ErrorView>(e.view()),
        },
{
    let n: usize = cs.len();
    let ghost max = n as int;
    let mut toks: Vec<Tok> = Vec::new();
    let mut word: Vec<char> = Vec::new();
    let mut i: usize = 0;
    let ghost whole = tokens(cs@);
    proof {
        assert(tok_views(toks@) =~= Seq::empty());
        assert(word@ =~= Seq::empty());
    }
    while i < n
        invariant
            n == cs@.len(),
            max == n,
            fits(cs@),
            i <= n,
            whole == tokens(cs@),
            whole == lex_from(cs@, i as int, word@, tok_views(toks@)),
            toks_fit(tok_views(toks@), max),
            toks@.len() + word@.len() <= i,
        decreases n - i,
    {
        let c: char = cs[i];
        if c == '"' {
            match flush(&mut word, &mut toks, Ghost(max)) {
                Ok(_) => {},
                Err(e) => {
                    return Err(e);
                },
            }
            assert(word@ =~= Seq::empty());
            let (items, j): (Vec<PhraseItem>, usize) = match lex_phrase(cs, i + 1) {
                Ok(x) => x,
                Err(e) => {
                    return Err(e);
                },
            };
            let ghost was = toks@;
            if j < n && cs[j] == '~' {
                let k: usize = skip_digits(cs.as_slice(), j + 1);
                let digits: Vec<char> = sub_vec(cs.as_slice(), j + 1, k);
                match parse_whole(digits.as_slice(), u32::MAX as u64) {
                    Some(slop) => {
                        let t: Tok = Tok::Phrase(items, slop as u32);
                        toks.push(t);
                        proof {
                            assert(tok_views(toks@) =~= tok_views(was).push(t.view()));
                        }
                        i = k;
                    },
                    None => {
                        return Err(QueryError::Syntax("a phrase's ~ needs a number: \"...\"~2".to_owned()));
                    },
                }
            } else {
                let t: Tok = Tok::Phrase(items, 0);
                toks.push(t);
                proof {
                    assert(tok_views(toks@) =~= tok_views(was).push(t.view()));
                }
                i = j;
            }
        } else if c == '(' || c == ')' || c == '[' || c == ']' {
            match flush(&mut word, &mut toks, Ghost(max)) {
                Ok(_) => {},
                Err(e) => {
                    return Err(e);
                },
            }
            assert(word@ =~= Seq::empty());
            let ghost was = toks@;
            let t: Tok = if c == '(' {
                Tok::LParen
            } else if c == ')' {
                Tok::RParen
            } else if c == '[' {
                Tok::LBracket
            } else {
                Tok::RBracket
            };
            toks.push(t);
            proof {
                assert(tok_views(toks@) =~= tok_views(was).push(t.view()));
            }
            i = i + 1;
        } else if c == '^' {
            if word.len() == 0 && (i == 0 || is_white(cs[i - 1])) {
                return Err(QueryError::Syntax("^ must follow an item with no space: beer^2".to_owned()));
            }
            match flush(&mut word, &mut toks, Ghost(max)) {
                Ok(_) => {},
                Err(e) => {
                    return Err(e);
                },
            }
            assert(word@ =~= Seq::empty());
            let k: usize = skip_boost(cs, i + 1);
            let number: Vec<char> = sub_vec(cs.as_slice(), i + 1, k);
            if !boost_in_range(&number) {
                let t: String = text_of(&number);
                return Err(QueryError::Syntax(joined(&vec!["boost ^", t.as_str(), " must be a number from 0 to 10000"])));
            }
            let ghost was = toks@;
            let t: Tok = Tok::Boost(number);
            toks.push(t);
            proof {
                assert(tok_views(toks@) =~= tok_views(was).push(t.view()));
            }
            i = k;
        } else if c == ',' {
            // A comma separates items, except inside a number (1,000).
            let w: usize = word.len();
            let inside: bool = w > 0 && is_digit_char(word[w - 1]) && i + 1 < n && is_digit_char(cs[i + 1]);
            if inside {
                word.push(c);
            } else {
                match flush(&mut word, &mut toks, Ghost(max)) {
                    Ok(_) => {},
                    Err(e) => {
                        return Err(e);
                    },
                }
                assert(word@ =~= Seq::empty());
            }
            i = i + 1;
        } else if c == '-' && word.len() == 0 {
            let ghost was = toks@;
            toks.push(Tok::Neg);
            proof {
                assert(tok_views(toks@) =~= tok_views(was).push(TokView::Neg));
            }
            i = i + 1;
        } else if is_white(c) {
            match flush(&mut word, &mut toks, Ghost(max)) {
                Ok(_) => {},
                Err(e) => {
                    return Err(e);
                },
            }
            assert(word@ =~= Seq::empty());
            i = i + 1;
        } else {
            word.push(c);
            i = i + 1;
        }
    }
    match flush(&mut word, &mut toks, Ghost(max)) {
        Ok(_) => Ok(toks),
        Err(e) => Err(e),
    }
}

/// Where a boost's number ends.
fn skip_boost(cs: &Vec<char>, i: usize) -> (r: usize)
    requires
        i <= cs@.len(),
    ensures
        r == boost_end(cs@, i as int),
        i <= r <= cs@.len(),
{
    let mut k: usize = i;
    while k < cs.len() && (is_digit_char(cs[k]) || cs[k] == '.' || cs[k] == 'e' || cs[k] == 'E')
        invariant
            i <= k <= cs@.len(),
            boost_end(cs@, i as int) == boost_end(cs@, k as int),
        decreases cs@.len() - k,
    {
        k = k + 1;
    }
    k
}

} // verus!
