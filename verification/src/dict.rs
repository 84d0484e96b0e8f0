//! The term dictionary: a finite state transducer from terms to values.

use vstd::prelude::*;
use vstd::utf8::{decode_utf8, encode_utf8, valid_utf8};

verus! {

/// `fst::Map`, the dictionary.
#[verifier::external_type_specification]
#[verifier::external_body]
#[verifier::reject_recursive_types(D)]
pub struct ExFstMap<D>(fst::Map<D>);

/// `fst::Error`: why a dictionary could not be built or read.
#[verifier::external_type_specification]
#[verifier::external_body]
pub struct ExFstError(fst::Error);

/// The keys of a dictionary with their values; `None` for one that was read
/// from bytes which no builder wrote.
pub uninterp spec fn dict_contents(m: fst::Map<Vec<u8>>) -> Option<Map<Seq<u8>, u64>>;

/// The bytes that a dictionary is made of.
pub uninterp spec fn dict_bytes(m: fst::Map<Vec<u8>>) -> Seq<u8>;

/// Lexicographic order of byte strings.
pub open spec fn bytes_less(a: Seq<u8>, b: Seq<u8>) -> bool
    decreases a.len(),
{
    if b.len() == 0 {
        false
    } else if a.len() == 0 {
        true
    } else if a[0] != b[0] {
        a[0] < b[0]
    } else {
        bytes_less(a.drop_first(), b.drop_first())
    }
}

/// Keys in strictly ascending order.
pub open spec fn keys_ascend(s: Seq<(Vec<u8>, u64)>) -> bool {
    forall|i: int, j: int| 0 <= i < j < s.len() ==> bytes_less((#[trigger] s[i]).0@, (#[trigger] s[j]).0@)
}

/// The dictionary holds exactly the listed entries.
pub open spec fn holds_entries(c: Map<Seq<u8>, u64>, s: Seq<(Vec<u8>, u64)>) -> bool {
    &&& forall|i: int| 0 <= i < s.len() ==> c.dom().contains((#[trigger] s[i]).0@) && c[s[i].0@] == s[i].1
    &&& forall|k: Seq<u8>| #[trigger] c.dom().contains(k) ==> exists|i: int| 0 <= i < s.len() && (#[trigger] s[i]).0@ == k
}

/// `fst::Map::from_iter`: a dictionary of the entries, whose keys must come
/// in strictly ascending order.
#[verifier::external_body]
pub(crate) fn dict_build(entries: &Vec<(Vec<u8>, u64)>) -> (r: Result<fst::Map<Vec<u8>>, fst::Error>)
    requires
        keys_ascend(entries@),
    ensures
        r is Ok,
        dict_contents(r->Ok_0) is Some,
        holds_entries(dict_contents(r->Ok_0)->0, entries@),
{
    fst::Map::from_iter(entries.iter().map(|e| (e.0.as_slice(), e.1)))
}

/// `fst::Map::new`: the dictionary that the bytes make. Bytes of an existing
/// dictionary are accepted and hold what it holds. Its addresses are 64 bits
/// wide, so it needs words of that size.
#[verifier::external_body]
pub(crate) fn dict_open(bytes: Vec<u8>) -> (r: Result<fst::Map<Vec<u8>>, fst::Error>)
    requires
        u64::MAX <= usize::MAX,
    ensures
        (exists|m: fst::Map<Vec<u8>>| #[trigger] dict_bytes(m) == bytes@) ==> r is Ok,
        r is Ok ==> dict_bytes(r->Ok_0) == bytes@,
        r is Ok ==> forall|m: fst::Map<Vec<u8>>| #[trigger] dict_bytes(m) == bytes@ ==> dict_contents(r->Ok_0) == dict_contents(m),
{
    fst::Map::new(bytes)
}

/// `fst::Map::get`: the value of a key.
#[verifier::external_body]
pub(crate) fn dict_get(m: &fst::Map<Vec<u8>>, key: &[u8]) -> (r: Option<u64>)
    requires
        dict_contents(*m) is Some,
    ensures
        r == if dict_contents(*m)->0.dom().contains(key@) { Some(dict_contents(*m)->0[key@]) } else { None },
{
    m.get(key)
}

/// `fst::map::Stream::into_byte_vec` of `fst::Map::stream`: every entry, in
/// key order.
#[verifier::external_body]
pub(crate) fn dict_entries(m: &fst::Map<Vec<u8>>) -> (r: Vec<(Vec<u8>, u64)>)
    requires
        dict_contents(*m) is Some,
    ensures
        keys_ascend(r@),
        holds_entries(dict_contents(*m)->0, r@),
{
    m.stream().into_byte_vec()
}

/// `fst::map::Stream::into_byte_vec` of `fst::Map::range` with the bounds `ge`
/// and `lt`: every entry whose key is not less than `from` but less than `to`,
/// in key order.
#[verifier::external_body]
pub(crate) fn dict_range(m: &fst::Map<Vec<u8>>, from: &[u8], to: &[u8]) -> (r: Vec<(Vec<u8>, u64)>)
    requires
        dict_contents(*m) is Some,
    ensures
        keys_ascend(r@),
        forall|i: int|
            0 <= i < r@.len() ==> {
                &&& dict_contents(*m)->0.dom().contains((#[trigger] r@[i]).0@)
                &&& dict_contents(*m)->0[r@[i].0@] == r@[i].1
                &&& !bytes_less(r@[i].0@, from@)
                &&& bytes_less(r@[i].0@, to@)
            },
        forall|k: Seq<u8>| #[trigger]
            dict_contents(*m)->0.dom().contains(k) && !bytes_less(k, from@) && bytes_less(k, to@) ==> exists|i: int| 0 <= i < r@.len() && (#[trigger] r@[i]).0@ == k,
{
    fst::IntoStreamer::into_stream(m.range().ge(from).lt(to)).into_byte_vec()
}

/// What starts with `a` lies between `a` and `b`, which is `a` but for a greater
/// last byte.
pub proof fn lemma_prefix_range(k: Seq<u8>, a: Seq<u8>, b: Seq<u8>)
    requires
        0 < a.len() == b.len() <= k.len(),
        k.subrange(0, a.len() as int) == a,
        forall|i: int| 0 <= i < a.len() - 1 ==> a[i] == b[i],
        a.last() < b.last(),
    ensures
        !bytes_less(k, a),
        bytes_less(k, b),
    decreases a.len(),
{
    assert(k[0] == k.subrange(0, a.len() as int)[0]);
    if a.len() > 1 {
        let (k2, a2, b2) = (k.drop_first(), a.drop_first(), b.drop_first());
        assert(k2.subrange(0, a2.len() as int) =~= a2) by {
            assert forall|i: int| 0 <= i < a2.len() implies k2[i] == a2[i] by {
                assert(k.subrange(0, a.len() as int)[i + 1] == k[i + 1]);
            }
        }
        lemma_prefix_range(k2, a2, b2);
    } else {
        assert(!bytes_less(k.drop_first(), a.drop_first()));
    }
}

/// `fst::raw::Fst::as_bytes` of `fst::Map::as_fst`: the dictionary's bytes.
#[verifier::external_body]
pub(crate) fn dict_as_bytes(m: &fst::Map<Vec<u8>>) -> (r: &[u8])
    ensures
        r@ == dict_bytes(*m),
{
    m.as_fst().as_bytes()
}

/// The message of an `fst::Error`, by its `Display`.
#[verifier::external_body]
pub(crate) fn dict_error_text(e: fst::Error) -> String {
    format!("{}", e)
}

/// `std::str::from_utf8`: the string of the bytes, if they are valid UTF-8.
#[verifier::external_body]
pub(crate) fn utf8_string(b: &[u8]) -> (r: Option<String>)
    ensures
        r is Some <==> valid_utf8(b@),
        r is Some ==> encode_utf8(r->0@) == b@,
{
    match std::str::from_utf8(b) {
        Ok(s) => Some(s.to_owned()),
        Err(_) => None,
    }
}

/// The term of a dictionary key; empty if the key is no valid UTF-8.
pub(crate) fn key_term(b: &[u8]) -> (r: String)
    ensures
        forall|t: Seq<char>| #[trigger] encode_utf8(t) == b@ ==> r@ == t,
{
    broadcast use vstd::utf8::encode_utf8_valid_utf8, vstd::utf8::encode_utf8_decode_utf8;
    match utf8_string(b) {
        Some(s) => {
            proof {
                assert forall|t: Seq<char>| #[trigger] encode_utf8(t) == b@ implies s@ == t by {
                    assert(decode_utf8(encode_utf8(t)) == t);
                    assert(decode_utf8(encode_utf8(s@)) == s@);
                }
            }
            s
        },
        None => String::new(),
    }
}

/// No two terms share their bytes.
pub proof fn lemma_encode_injective(a: Seq<char>, b: Seq<char>)
    requires
        encode_utf8(a) == encode_utf8(b),
    ensures
        a == b,
{
    broadcast use vstd::utf8::encode_utf8_decode_utf8;
    assert(decode_utf8(encode_utf8(a)) == a);
    assert(decode_utf8(encode_utf8(b)) == b);
}

pub proof fn lemma_bytes_less_trans(a: Seq<u8>, b: Seq<u8>, c: Seq<u8>)
    requires
        bytes_less(a, b),
        bytes_less(b, c),
    ensures
        bytes_less(a, c),
    decreases a.len(),
{
    if a.len() > 0 && a[0] == b[0] && b[0] == c[0] {
        lemma_bytes_less_trans(a.drop_first(), b.drop_first(), c.drop_first());
    }
}

pub proof fn lemma_bytes_total(a: Seq<u8>, b: Seq<u8>)
    ensures
        bytes_less(a, b) || a == b || bytes_less(b, a),
        !(bytes_less(a, b) && bytes_less(b, a)),
        bytes_less(a, b) ==> a != b,
    decreases a.len(),
{
    if a.len() > 0 && b.len() > 0 && a[0] == b[0] {
        lemma_bytes_total(a.drop_first(), b.drop_first());
        if a.drop_first() == b.drop_first() {
            assert(a =~= seq![a[0]] + a.drop_first());
            assert(b =~= seq![b[0]] + b.drop_first());
        }
    } else if a.len() == 0 && b.len() == 0 {
        assert(a =~= b);
    }
}

/// Whether `a` comes before `b`.
pub(crate) fn comes_before(a: &[u8], b: &[u8]) -> (r: bool)
    ensures
        r == bytes_less(a@, b@),
{
    let mut i: usize = 0;
    proof {
        assert(a@.skip(0) =~= a@);
        assert(b@.skip(0) =~= b@);
    }
    while i < a.len() && i < b.len()
        invariant
            i <= a@.len(),
            i <= b@.len(),
            bytes_less(a@, b@) == bytes_less(a@.skip(i as int), b@.skip(i as int)),
        decreases a@.len() - i,
    {
        if a[i] < b[i] {
            return true;
        }
        if b[i] < a[i] {
            return false;
        }
        proof {
            assert(a@.skip(i as int).drop_first() =~= a@.skip(i + 1));
            assert(b@.skip(i as int).drop_first() =~= b@.skip(i + 1));
        }
        i = i + 1;
    }
    i < b.len()
}

} // verus!
