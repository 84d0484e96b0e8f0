//! Strings as sequences of characters.

use vstd::prelude::*;
use vstd::utf8::{encode_scalar, encode_utf8};

verus! {

/// `String::push`: one character is added at the end.
pub assume_specification[ String::push ](s: &mut String, c: char)
    ensures
        final(s)@ == old(s)@.push(c),
;

/// Bytes that a character takes in UTF-8.
pub open spec fn char_width(c: char) -> int {
    let x = c as u32;
    if x < 0x80 {
        1
    } else if x < 0x800 {
        2
    } else if x < 0x1_0000 {
        3
    } else {
        4
    }
}

/// Bytes that the first `n` characters take in UTF-8.
pub open spec fn bytes_before(s: Seq<char>, n: int) -> int
    decreases n,
{
    if n <= 0 {
        0
    } else {
        bytes_before(s, n - 1) + char_width(s[n - 1])
    }
}

/// Bytes that a text takes in UTF-8.
pub open spec fn byte_len(s: Seq<char>) -> int {
    bytes_before(s, s.len() as int)
}

/// Byte positions of the text fit a `u32`.
pub open spec fn fits(s: Seq<char>) -> bool {
    s.len() * 4 <= u32::MAX
}

/// An ASCII character.
pub open spec fn is_low(c: char) -> bool {
    (c as u32) < 128
}

/// An ASCII digit.
pub open spec fn is_digit(c: char) -> bool {
    '0' <= c && c <= '9'
}

pub proof fn lemma_bytes_mono(s: Seq<char>, a: int, b: int)
    requires
        0 <= a <= b,
    ensures
        bytes_before(s, a) + (b - a) <= bytes_before(s, b) <= bytes_before(s, a) + 4 * (b - a),
        0 <= bytes_before(s, a),
    decreases b,
{
    if b > 0 {
        if a < b {
            lemma_bytes_mono(s, a, b - 1);
        } else {
            lemma_bytes_mono(s, a - 1, b - 1);
        }
    }
}

/// A stretch of the text takes as many bytes on its own as in its place.
pub proof fn lemma_bytes_sub(s: Seq<char>, a: int, b: int, n: int)
    requires
        0 <= a,
        b <= s.len(),
        0 <= n <= b - a,
    ensures
        bytes_before(s, a) + bytes_before(s.subrange(a, b), n) == bytes_before(s, a + n),
    decreases n,
{
    if n > 0 {
        lemma_bytes_sub(s, a, b, n - 1);
    }
}

pub fn width_of(c: char) -> (r: usize)
    ensures
        r == char_width(c),
{
    let x: u32 = c as u32;
    if x < 0x80 {
        1
    } else if x < 0x800 {
        2
    } else if x < 0x1_0000 {
        3
    } else {
        4
    }
}

/// The characters of a string.
pub fn chars_of(s: &str) -> (r: Vec<char>)
    ensures
        r@ == s@,
{
    let mut v: Vec<char> = Vec::with_capacity(s.as_bytes().len());
    for c in it: s.chars()
        invariant
            v@ == it.seq().take(it.index()),
            it.seq() == s@,
    {
        v.push(c);
        assert(it.seq().take(it.index() + 1) =~= it.seq().take(it.index()).push(c));
    }
    assert(v@ =~= s@);
    v
}

/// The string of `cs[from..to]`.
pub fn string_of(cs: &[char], from: usize, to: usize) -> (r: String)
    requires
        from <= to <= cs@.len(),
    ensures
        r@ == cs@.subrange(from as int, to as int),
{
    let mut s: String = String::new();
    let mut i: usize = from;
    while i < to
        invariant
            from <= i <= to <= cs@.len(),
            s@ == cs@.subrange(from as int, i as int),
        decreases to - i,
    {
        s.push(cs[i]);
        proof {
            assert(cs@.subrange(from as int, i + 1) =~= cs@.subrange(from as int, i as int).push(cs@[i as int]));
        }
        i = i + 1;
    }
    s
}

/// Bytes that a text takes in UTF-8.
pub fn utf8_len(cs: &[char]) -> (r: usize)
    requires
        fits(cs@),
    ensures
        r == byte_len(cs@),
{
    let mut n: usize = 0;
    let mut i: usize = 0;
    while i < cs.len()
        invariant
            i <= cs@.len(),
            fits(cs@),
            n == bytes_before(cs@, i as int),
            n <= 4 * i,
        decreases cs@.len() - i,
    {
        n = n + width_of(cs[i]);
        i = i + 1;
    }
    n
}

/// Whether two texts are the same.
pub fn same_chars(a: &[char], b: &[char]) -> (r: bool)
    ensures
        r == (a@ == b@),
{
    if a.len() != b.len() {
        return false;
    }
    let mut i: usize = 0;
    while i < a.len()
        invariant
            i <= a@.len(),
            a@.len() == b@.len(),
            forall|k: int| 0 <= k < i ==> a@[k] == b@[k],
        decreases a@.len() - i,
    {
        if a[i] != b[i] {
            return false;
        }
        i = i + 1;
    }
    proof {
        assert(a@ =~= b@);
    }
    true
}

/// `p` starts `t`.
pub open spec fn starts(t: Seq<char>, p: Seq<char>) -> bool {
    p.len() <= t.len() && t.subrange(0, p.len() as int) == p
}

/// `f` occurs in `t`.
pub open spec fn occurs(t: Seq<char>, f: Seq<char>) -> bool {
    exists|i: int| 0 <= i <= t.len() - f.len() && #[trigger] t.subrange(i, i + f.len()) == f
}

/// Whether `p` stands in `t` at `at`.
fn stands_at(t: &[char], p: &[char], at: usize) -> (r: bool)
    requires
        at + p@.len() <= t@.len(),
    ensures
        r == (t@.subrange(at as int, at + p@.len()) == p@),
{
    let n: usize = t.len();
    let mut i: usize = 0;
    while i < p.len()
        invariant
            n == t@.len(),
            i <= p@.len(),
            at + p@.len() <= t@.len(),
            forall|k: int| 0 <= k < i ==> t@[at + k] == p@[k],
        decreases p@.len() - i,
    {
        if t[at + i] != p[i] {
            proof {
                assert(t@.subrange(at as int, at + p@.len())[i as int] == t@[at + i]);
            }
            return false;
        }
        i = i + 1;
    }
    proof {
        assert(t@.subrange(at as int, at + p@.len()) =~= p@);
    }
    true
}

pub fn starts_with(t: &[char], p: &[char]) -> (r: bool)
    ensures
        r == starts(t@, p@),
{
    p.len() <= t.len() && stands_at(t, p, 0)
}

pub fn contains(t: &[char], f: &[char]) -> (r: bool)
    ensures
        r == occurs(t@, f@),
{
    if f.len() > t.len() {
        return false;
    }
    let last: usize = t.len() - f.len();
    let mut i: usize = 0;
    loop
        invariant
            i <= last,
            last == t@.len() - f@.len(),
            forall|k: int| 0 <= k < i ==> #[trigger] t@.subrange(k, k + f@.len()) != f@,
        decreases last - i,
    {
        if stands_at(t, f, i) {
            return true;
        }
        if i == last {
            return false;
        }
        i = i + 1;
    }
}

/// The bytes of one text after another.
pub proof fn lemma_encode_concat(a: Seq<char>, b: Seq<char>)
    ensures
        encode_utf8(a + b) == encode_utf8(a) + encode_utf8(b),
    decreases a.len(),
{
    if a.len() == 0 {
        assert(a + b =~= b);
        assert(encode_utf8(a) + encode_utf8(b) =~= encode_utf8(b));
    } else {
        lemma_encode_concat(a.drop_first(), b);
        assert((a + b).drop_first() =~= a.drop_first() + b);
        assert(encode_utf8(a + b) =~= encode_utf8(a) + encode_utf8(b));
    }
}

/// What occurs in a text occurs in its bytes.
pub proof fn lemma_occurs_bytes(t: Seq<char>, f: Seq<char>, i: int) -> (at: int)
    requires
        0 <= i <= t.len() - f.len(),
        t.subrange(i, i + f.len()) == f,
    ensures
        0 <= at <= encode_utf8(t).len() - encode_utf8(f).len(),
        encode_utf8(t).subrange(at, at + encode_utf8(f).len()) == encode_utf8(f),
        i == 0 ==> at == 0,
{
    let (a, b) = (t.take(i), t.skip(i + f.len()));
    assert(a + (f + b) =~= t);
    lemma_encode_concat(a, f + b);
    lemma_encode_concat(f, b);
    let at = encode_utf8(a).len() as int;
    assert(encode_utf8(t).subrange(at, at + encode_utf8(f).len()) =~= encode_utf8(f));
    at
}

/// Whether `p` stands in `b` at `at`.
fn bytes_at(b: &[u8], p: &[u8], at: usize) -> (r: bool)
    requires
        at + p@.len() <= b@.len(),
    ensures
        r == (b@.subrange(at as int, at + p@.len()) == p@),
{
    let n: usize = b.len();
    let mut i: usize = 0;
    while i < p.len()
        invariant
            n == b@.len(),
            i <= p@.len(),
            at + p@.len() <= b@.len(),
            forall|k: int| 0 <= k < i ==> b@[at + k] == p@[k],
        decreases p@.len() - i,
    {
        if b[at + i] != p[i] {
            proof {
                assert(b@.subrange(at as int, at + p@.len())[i as int] == b@[at + i]);
            }
            return false;
        }
        i = i + 1;
    }
    proof {
        assert(b@.subrange(at as int, at + p@.len()) =~= p@);
    }
    true
}

/// Whether the bytes are those of `t`.
pub fn is_bytes_of(b: &[u8], t: &str) -> (r: bool)
    ensures
        r == (b@ == encode_utf8(t@)),
{
    let p: &[u8] = t.as_bytes();
    if b.len() != p.len() {
        return false;
    }
    proof {
        assert(b@.subrange(0, b@.len() as int) =~= b@);
    }
    bytes_at(b, p, 0)
}

/// Whether a text with the bytes `b` may start with `p`.
pub fn may_start(b: &[u8], p: &str) -> (r: bool)
    ensures
        forall|t: Seq<char>| #[trigger] encode_utf8(t) == b@ && starts(t, p@) ==> r,
{
    let q: &[u8] = p.as_bytes();
    proof {
        assert forall|t: Seq<char>| #[trigger] encode_utf8(t) == b@ && starts(t, p@) implies q@.len() <= b@.len() && b@.subrange(0, q@.len() as int) == q@ by {
            let at = lemma_occurs_bytes(t, p@, 0);
        }
    }
    q.len() <= b.len() && bytes_at(b, q, 0)
}

/// Whether `f` may occur in a text with the bytes `b`.
pub fn may_occur(b: &[u8], f: &str) -> (r: bool)
    ensures
        forall|t: Seq<char>| #[trigger] encode_utf8(t) == b@ && occurs(t, f@) ==> r,
{
    let q: &[u8] = f.as_bytes();
    proof {
        assert forall|t: Seq<char>| #[trigger] encode_utf8(t) == b@ && occurs(t, f@) implies bytes_occur(b@, q@) by {
            let i = choose|i: int| 0 <= i <= t.len() - f@.len() && #[trigger] t.subrange(i, i + f@.len()) == f@;
            let at = lemma_occurs_bytes(t, f@, i);
        }
    }
    if q.len() > b.len() {
        return false;
    }
    let last: usize = b.len() - q.len();
    let mut i: usize = 0;
    loop
        invariant
            i <= last,
            last == b@.len() - q@.len(),
            forall|t: Seq<char>| #[trigger] encode_utf8(t) == b@ && occurs(t, f@) ==> bytes_occur(b@, q@),
            forall|k: int| 0 <= k < i ==> #[trigger] b@.subrange(k, k + q@.len()) != q@,
        decreases last - i,
    {
        if bytes_at(b, q, i) {
            return true;
        }
        if i == last {
            return false;
        }
        i = i + 1;
    }
}

/// `q` occurs in `b`.
spec fn bytes_occur(b: Seq<u8>, q: Seq<u8>) -> bool {
    exists|i: int| 0 <= i <= b.len() - q.len() && #[trigger] b.subrange(i, i + q.len()) == q
}

/// Alphabetical order by character.
pub open spec fn char_less(a: Seq<char>, b: Seq<char>) -> bool
    decreases a.len(),
{
    if b.len() == 0 {
        false
    } else if a.len() == 0 {
        true
    } else if a[0] != b[0] {
        a[0] < b[0]
    } else {
        char_less(a.drop_first(), b.drop_first())
    }
}

/// Alphabetical order: which of two texts comes first.
pub fn compare(a: &[char], b: &[char]) -> (r: i8)
    ensures
        r < 0 <==> char_less(a@, b@),
        r == 0 <==> a@ == b@,
        r > 0 <==> char_less(b@, a@),
        -1 <= r <= 1,
{
    let mut i: usize = 0;
    proof {
        assert(a@.skip(0) =~= a@);
        assert(b@.skip(0) =~= b@);
    }
    while i < a.len() && i < b.len()
        invariant
            i <= a@.len(),
            i <= b@.len(),
            forall|k: int| 0 <= k < i ==> a@[k] == b@[k],
            char_less(a@, b@) == char_less(a@.skip(i as int), b@.skip(i as int)),
            char_less(b@, a@) == char_less(b@.skip(i as int), a@.skip(i as int)),
        decreases a@.len() - i,
    {
        let (x, y): (char, char) = (a[i], b[i]);
        if x < y {
            assert(a@[i as int] != b@[i as int]);
            return -1;
        }
        if y < x {
            assert(a@[i as int] != b@[i as int]);
            return 1;
        }
        proof {
            assert(a@[i as int] == b@[i as int]);
            assert(a@.skip(i as int).drop_first() =~= a@.skip(i + 1));
            assert(b@.skip(i as int).drop_first() =~= b@.skip(i + 1));
        }
        i = i + 1;
    }
    if a.len() < b.len() {
        -1
    } else if b.len() < a.len() {
        1
    } else {
        proof {
            assert(a@ =~= b@);
        }
        0
    }
}

pub proof fn lemma_less_trans(a: Seq<char>, b: Seq<char>, c: Seq<char>)
    requires
        char_less(a, b),
        char_less(b, c),
    ensures
        char_less(a, c),
    decreases a.len(),
{
    if a.len() > 0 && a[0] == b[0] && b[0] == c[0] {
        lemma_less_trans(a.drop_first(), b.drop_first(), c.drop_first());
    }
}

pub proof fn lemma_less_irreflexive(a: Seq<char>)
    ensures
        !char_less(a, a),
    decreases a.len(),
{
    if a.len() > 0 {
        lemma_less_irreflexive(a.drop_first());
    }
}

/// A string with the same chars.
pub(crate) fn copy_of(s: &str) -> (r: String)
    ensures
        r@ == s@,
{
    let cs: Vec<char> = chars_of(s);
    let r: String = string_of(cs.as_slice(), 0, cs.len());
    proof {
        assert(cs@.subrange(0, cs@.len() as int) =~= cs@);
    }
    r
}

// ---------------------------------------------------------------------------
// Laws
// ---------------------------------------------------------------------------

/// A text starts with another exactly if it is that one with something behind
/// it.
pub proof fn starts_with_what_leads(t: Seq<char>, p: Seq<char>)
    ensures
        starts(t, p) <==> exists|rest: Seq<char>| t == #[trigger] (p + rest),
{
    if starts(t, p) {
        let rest = t.skip(p.len() as int);
        assert(t.subrange(0, p.len() as int) + rest =~= t);
        assert(t == p + rest);
    }
    if exists|rest: Seq<char>| t == #[trigger] (p + rest) {
        let rest = choose|rest: Seq<char>| t == #[trigger] (p + rest);
        assert(t.subrange(0, p.len() as int) =~= p);
    }
}

/// A text contains another exactly if it is that one between two parts.
pub proof fn contains_what_stands_inside(t: Seq<char>, f: Seq<char>)
    ensures
        occurs(t, f) <==> exists|a: Seq<char>, b: Seq<char>| t == #[trigger] (a + f + b),
{
    if occurs(t, f) {
        let i = choose|i: int| 0 <= i <= t.len() - f.len() && #[trigger] t.subrange(i, i + f.len()) == f;
        let (a, b) = (t.take(i), t.skip(i + f.len()));
        assert(t =~= a + t.subrange(i, i + f.len()) + b);
        assert(t == a + f + b);
    }
    if exists|a: Seq<char>, b: Seq<char>| t == #[trigger] (a + f + b) {
        let (a, b) = choose|a: Seq<char>, b: Seq<char>| t == #[trigger] (a + f + b);
        let i = a.len() as int;
        assert(t.subrange(i, i + f.len()) =~= f);
    }
}

/// The bytes of a text are those of its UTF-8 form.
pub proof fn bytes_are_counted_in_utf8(s: Seq<char>)
    ensures
        byte_len(s) == encode_utf8(s).len(),
    decreases s.len(),
{
    if s.len() > 0 {
        let rest = s.drop_first();
        bytes_are_counted_in_utf8(rest);
        vstd::utf8::char_is_scalar(s[0]);
        let first = encode_scalar(s[0] as u32);
        assert(first.len() == char_width(s[0]));
        assert(encode_utf8(s) == first + encode_utf8(rest));
        lemma_bytes_after_first(s, s.len() as int);
    }
}

proof fn lemma_bytes_after_first(s: Seq<char>, n: int)
    requires
        1 <= n <= s.len(),
    ensures
        bytes_before(s, n) == char_width(s[0]) + bytes_before(s.drop_first(), n - 1),
    decreases n,
{
    if n > 1 {
        lemma_bytes_after_first(s, n - 1);
        assert(s.drop_first()[n - 2] == s[n - 1]);
    } else {
        assert(bytes_before(s, 0) == 0);
    }
}

/// Texts are ordered by the first character in which they differ; what leads
/// another comes before it.
pub proof fn order_goes_by_first_difference(p: Seq<char>, x: char, a: Seq<char>, y: char, b: Seq<char>)
    requires
        x != y,
    ensures
        char_less(p + seq![x] + a, p + seq![y] + b) <==> (x as u32) < (y as u32),
        char_less(p, p + seq![x] + a),
        !char_less(p + seq![x] + a, p),
        !char_less(p, p),
    decreases p.len(),
{
    let (s, t) = (p + seq![x] + a, p + seq![y] + b);
    if p.len() == 0 {
        assert(s[0] == x && t[0] == y);
    } else {
        let q = p.drop_first();
        order_goes_by_first_difference(q, x, a, y, b);
        assert(s.drop_first() =~= q + seq![x] + a);
        assert(t.drop_first() =~= q + seq![y] + b);
        assert(s[0] == p[0] && t[0] == p[0]);
    }
}

} // verus!
