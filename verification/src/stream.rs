//! Bit streams: bits packed into bytes, low bits first, and the moves between
//! them and word bitmaps.

use vstd::prelude::*;
use crate::words::{bit, lemma_word_ops, lemma_word_shift, word_bit};

verus! {

/// Bit `i` of one byte.
pub open spec fn byte_bit(b: u8, i: int) -> bool {
    (b >> (i as u8)) & 1u8 == 1u8
}

/// Bit `i` of a byte stream; bits past the end are clear.
pub open spec fn stream_bit(s: Seq<u8>, i: int) -> bool {
    0 <= i < s.len() * 8 && byte_bit(s[i / 8], i % 8)
}

/// A byte widened to a word keeps its bits.
proof fn lemma_widen(b: u8)
    ensures
        forall|j: int| 0 <= j < 64 ==> #[trigger] word_bit(b as u64, j) == (j < 8 && byte_bit(b, j)),
{
    assert forall|j: int| 0 <= j < 64 implies #[trigger] word_bit(b as u64, j) == (j < 8 && byte_bit(b, j)) by {
        let k = j as u64;
        let l = j as u8;
        assert(k < 64 && l == k ==> (((b as u64) >> k) & 1 == 1 <==> (k < 8 && (b >> l) & 1 == 1))) by (bit_vector);
    }
}

/// Byte `s / 8` of a word holds its bits from `s` on.
proof fn lemma_narrow(w: u64, s: u64)
    requires
        s <= 56,
    ensures
        forall|i: int| 0 <= i < 8 ==> #[trigger] byte_bit((w >> s) as u8, i) == word_bit(w, s + i),
{
    assert forall|i: int| 0 <= i < 8 implies #[trigger] byte_bit((w >> s) as u8, i) == word_bit(w, s + i) by {
        let j = i as u8;
        let k = (s + i) as u64;
        assert(s <= 56 && j < 8 && k == s + j ==> ((((w >> s) as u8) >> j) & 1 == 1 <==> (w >> k) & 1 == 1)) by (bit_vector);
    }
}

/// The 64 bits of `src` from bit `at` on (clear past the end).
pub fn read_word(src: &[u8], at: usize) -> (r: u64)
    requires
        at + 128 <= usize::MAX,
    ensures
        forall|j: int| 0 <= j < 64 ==> #[trigger] word_bit(r, j) == stream_bit(src@, at + j),
{
    let first: usize = at / 8;
    let sh: u64 = (at % 8) as u64;
    let mut v: u64 = 0;
    let mut k: usize = 0;
    proof {
        lemma_word_ops(0, 0);
    }
    while k < 8
        invariant
            k <= 8,
            first + 16 <= usize::MAX,
            forall|j: int| 0 <= j < 64 ==> #[trigger] word_bit(v, j) == (j < 8 * k && stream_bit(src@, first * 8 + j)),
        decreases 8 - k,
    {
        let b: u8 = if first + k < src.len() { src[first + k] } else { 0 };
        let ghost was = v;
        proof {
            lemma_widen(b);
            lemma_widen(0);
            lemma_word_ops(0, 0);
            lemma_word_shift(b as u64, (8 * k) as u64);
            lemma_word_ops(v, (b as u64) << ((8 * k) as u64));
        }
        v = v | ((b as u64) << ((8 * k) as u64));
        proof {
            assert forall|j: int| 0 <= j < 64 implies #[trigger] word_bit(v, j) == (j < 8 * (k + 1) && stream_bit(src@, first * 8 + j)) by {
                assert(word_bit(v, j) == (word_bit(was, j) || word_bit((b as u64) << ((8 * k) as u64), j)));
                if j >= 8 * k {
                    assert(word_bit((b as u64) << ((8 * k) as u64), j) == word_bit(b as u64, j - 8 * k));
                    if j < 8 * (k + 1) {
                        assert((first * 8 + j) / 8 == first + k);
                        assert((first * 8 + j) % 8 == j - 8 * k);
                        if first + k >= src@.len() {
                            assert(!byte_bit(0, j - 8 * k)) by {
                                assert(!word_bit(0u8 as u64, j - 8 * k));
                            }
                        }
                    }
                }
            }
        }
        k = k + 1;
    }
    if sh == 0 {
        return v;
    }
    let b: u8 = if first + 8 < src.len() { src[first + 8] } else { 0 };
    let hi: u64 = (b as u64) << (64 - sh);
    let lo: u64 = v >> sh;
    proof {
        lemma_widen(b);
        lemma_widen(0);
        lemma_word_ops(0, 0);
        lemma_word_shift(b as u64, (64 - sh) as u64);
        lemma_word_shift(v, sh);
        lemma_word_ops(lo, hi);
        assert forall|j: int| 0 <= j < 64 implies #[trigger] word_bit(lo | hi, j) == stream_bit(src@, at + j) by {
            assert(word_bit(lo | hi, j) == (word_bit(lo, j) || word_bit(hi, j)));
            if j + sh < 64 {
                assert(word_bit(lo, j) == word_bit(v, j + sh));
                assert(first * 8 + (j + sh) == at + j);
            } else {
                assert(word_bit(hi, j) == word_bit(b as u64, j - (64 - sh)));
                assert((at + j) / 8 == first + 8);
                assert((at + j) % 8 == j + sh - 64);
                if first + 8 >= src@.len() {
                    assert(!byte_bit(0, j + sh - 64)) by {
                        assert(!word_bit(0u8 as u64, j + sh - 64));
                    }
                }
            }
        }
    }
    lo | hi
}

/// Append the first `n` bytes of a word, low byte first.
pub fn put_word(out: &mut Vec<u8>, w: u64, n: usize)
    requires
        n <= 8,
    ensures
        final(out)@.len() == old(out)@.len() + n,
        forall|i: int| 0 <= i < old(out)@.len() ==> final(out)@[i] == old(out)@[i],
        forall|i: int| i < old(out)@.len() * 8 ==> #[trigger] stream_bit(final(out)@, i) == stream_bit(old(out)@, i),
        forall|i: int| old(out)@.len() * 8 <= i < final(out)@.len() * 8 ==> #[trigger] stream_bit(final(out)@, i) == word_bit(w, i - old(out)@.len() * 8),
{
    let mut k: usize = 0;
    let ghost base = out@.len() as int;
    while k < n
        invariant
            k <= n <= 8,
            base == old(out)@.len(),
            out@.len() == base + k,
            forall|i: int| 0 <= i < base ==> out@[i] == old(out)@[i],
            forall|i: int| 0 <= i < 8 * k ==> #[trigger] byte_bit(out@[base + i / 8], i % 8) == word_bit(w, i),
        decreases n - k,
    {
        let ghost was = out@;
        proof {
            lemma_narrow(w, (8 * k) as u64);
        }
        out.push(#[verifier::truncate] ((w >> ((8 * k) as u64)) as u8));
        proof {
            assert forall|i: int| 0 <= i < 8 * (k + 1) implies #[trigger] byte_bit(out@[base + i / 8], i % 8) == word_bit(w, i) by {
                if i < 8 * k {
                    assert(out@[base + i / 8] == was[base + i / 8]);
                } else {
                    assert(i / 8 == k);
                    assert(8 * k + i % 8 == i);
                }
            }
        }
        k = k + 1;
    }
    proof {
        assert forall|i: int| base * 8 <= i < out@.len() * 8 implies #[trigger] stream_bit(out@, i) == word_bit(w, i - base * 8) by {
            let j = i - base * 8;
            assert(i / 8 == base + j / 8);
            assert(i % 8 == j % 8);
        }
    }
}

/// Appends bits to bytes, low bits first.
pub struct BitWriter {
    out: Vec<u8>,
    acc: u64,
    /// Bits pending in `acc`; always < 64.
    filled: u32,
}

impl BitWriter {
    /// Nothing is pending above the filled bits.
    pub closed spec fn wf(self) -> bool {
        &&& self.filled < 64
        &&& forall|j: int| self.filled <= j < 64 ==> !#[trigger] word_bit(self.acc, j)
    }

    /// Bits written so far, those of the bytes it was started on included.
    pub closed spec fn len(self) -> int {
        self.out@.len() * 8 + self.filled
    }

    /// Bit `i` of what was written.
    pub closed spec fn at(self, i: int) -> bool {
        if i < self.out@.len() * 8 {
            stream_bit(self.out@, i)
        } else {
            word_bit(self.acc, i - self.out@.len() * 8)
        }
    }

    /// The bytes it was started on.
    pub closed spec fn starts_with(self, s: Seq<u8>) -> bool {
        &&& s.len() <= self.out@.len()
        &&& forall|i: int| 0 <= i < s.len() ==> self.out@[i] == s[i]
    }

    /// Continue the bytes `out`.
    pub fn new(out: Vec<u8>) -> (r: Self)
        ensures
            r.wf(),
            r.len() == out@.len() * 8,
            forall|i: int| 0 <= i < r.len() ==> r.at(i) == stream_bit(out@, i),
            r.starts_with(out@),
    {
        proof {
            lemma_word_ops(0, 0);
        }
        BitWriter { out, acc: 0, filled: 0 }
    }

    /// Append the `n` low bits of `v`.
    pub fn write(&mut self, v: u64, n: u32)
        requires
            old(self).wf(),
            n <= 64,
        ensures
            final(self).wf(),
            final(self).len() == old(self).len() + n,
            forall|i: int| 0 <= i < old(self).len() ==> final(self).at(i) == old(self).at(i),
            forall|j: int| 0 <= j < n ==> #[trigger] final(self).at(old(self).len() + j) == word_bit(v, j),
            forall|s: Seq<u8>| old(self).starts_with(s) ==> final(self).starts_with(s),
    {
        if n == 0 {
            return;
        }
        let ghost before = *self;
        let low: u64 = if n == 64 {
            v
        } else {
            proof {
                lemma_word_shift(0, n as u64);
                lemma_word_ops(v, ((1u64 << (n as u64)) - 1) as u64);
            }
            v & ((1u64 << (n as u64)) - 1)
        };
        assert(forall|j: int| 0 <= j < 64 ==> #[trigger] word_bit(low, j) == (j < n && word_bit(v, j)));
        let f: u64 = self.filled as u64;
        let up: u64 = low << f;
        proof {
            lemma_word_shift(low, f);
            lemma_word_ops(self.acc, up);
        }
        let acc: u64 = self.acc | up;
        assert(forall|j: int| 0 <= j < 64 ==> #[trigger] word_bit(acc, j) == (word_bit(before.acc, j) || j >= f && word_bit(low, j - f)));
        self.acc = acc;
        let total: u32 = self.filled + n;
        let ghost base = before.out@.len() * 8;
        if total >= 64 {
            put_word(&mut self.out, acc, 8);
            self.acc = if f == 0 {
                proof {
                    lemma_word_ops(0, 0);
                }
                0
            } else {
                proof {
                    lemma_word_shift(low, (64 - f) as u64);
                }
                low >> (64 - f)
            };
            self.filled = total - 64;
            proof {
                assert forall|j: int| self.filled <= j < 64 implies !#[trigger] word_bit(self.acc, j) by {
                    if f != 0 {
                        assert(word_bit(self.acc, j) == (j + (64 - f) < 64 && word_bit(low, j + (64 - f))));
                    }
                }
                assert forall|j: int| 0 <= j < n implies #[trigger] self.at(before.len() + j) == word_bit(v, j) by {
                    let i = before.len() + j;
                    if i < self.out@.len() * 8 {
                        assert(stream_bit(self.out@, i) == word_bit(acc, i - base));
                        assert(word_bit(acc, f + j) == (word_bit(before.acc, f + j) || word_bit(low, (f + j) - f)));
                    } else {
                        let k = i - self.out@.len() * 8;
                        assert(k == f + j - 64);
                        assert(word_bit(self.acc, k) == word_bit(low, k + (64 - f)));
                    }
                }
                assert forall|i: int| 0 <= i < before.len() implies self.at(i) == before.at(i) by {
                    if i >= base {
                        assert(stream_bit(self.out@, i) == word_bit(acc, i - base));
                    }
                }
            }
        } else {
            self.filled = total;
            proof {
                assert forall|j: int| 0 <= j < n implies #[trigger] self.at(before.len() + j) == word_bit(v, j) by {
                    assert(word_bit(acc, f + j) == (word_bit(before.acc, f + j) || word_bit(low, (f + j) - f)));
                }
            }
        }
    }

    /// The bytes, the last one padded with clear bits.
    pub fn finish(self) -> (r: Vec<u8>)
        requires
            self.wf(),
        ensures
            r@.len() == (self.len() + 7) / 8,
            forall|i: int| 0 <= i ==> #[trigger] stream_bit(r@, i) == (i < self.len() && self.at(i)),
            forall|s: Seq<u8>| #[trigger] self.starts_with(s) ==> s.len() <= r@.len() && forall|i: int| 0 <= i < s.len() ==> r@[i] == s[i],
    {
        let bytes: usize = ((self.filled + 7) / 8) as usize;
        let mut out: Vec<u8> = self.out;
        let ghost base = out@.len() * 8;
        put_word(&mut out, self.acc, bytes);
        proof {
            assert forall|i: int| 0 <= i implies #[trigger] stream_bit(out@, i) == (i < self.len() && self.at(i)) by {
                if base <= i < out@.len() * 8 {
                    assert(stream_bit(out@, i) == word_bit(self.acc, i - base));
                }
            }
        }
        out
    }
}

/// OR the `n` low bits of `v` into `dst` at bit `at`; the rest of `v` is clear.
pub fn or_word(dst: &mut Vec<u64>, at: usize, v: u64, n: usize)
    requires
        n <= 64,
        at + n <= old(dst)@.len() * 64,
        forall|j: int| n <= j < 64 ==> !#[trigger] word_bit(v, j),
    ensures
        final(dst)@.len() == old(dst)@.len(),
        forall|x: int| #[trigger] bit(final(dst)@, x) == (bit(old(dst)@, x) || (at <= x < at + n && word_bit(v, x - at))),
{
    if n == 0 {
        return;
    }
    let k: usize = at / 64;
    let sh: u64 = (at % 64) as u64;
    let ghost before = dst@;
    let up: u64 = v << sh;
    proof {
        lemma_word_shift(v, sh);
        lemma_word_ops(dst@[k as int], up);
    }
    let w: u64 = dst[k] | up;
    assert(forall|j: int| 0 <= j < 64 ==> #[trigger] word_bit(w, j) == (word_bit(before[k as int], j) || j >= sh && word_bit(v, j - sh)));
    dst.set(k, w);
    if sh != 0 && sh as usize + n > 64 {
        let down: u64 = v >> (64 - sh);
        proof {
            lemma_word_shift(v, (64 - sh) as u64);
            lemma_word_ops(dst@[k as int + 1], down);
        }
        let w2: u64 = dst[k + 1] | down;
        dst.set(k + 1, w2);
        assert(forall|j: int| 0 <= j < 64 ==> #[trigger] word_bit(w2, j) == (word_bit(before[k as int + 1], j) || j + (64 - sh) < 64 && word_bit(v, j + (64 - sh))));
    }
    proof {
        assert forall|x: int| #[trigger] bit(dst@, x) == (bit(before, x) || (at <= x < at + n && word_bit(v, x - at))) by {
            if 0 <= x < before.len() * 64 {
                let (a, b) = (x / 64, x % 64);
                assert(x == a * 64 + b);
                if a == k {
                    assert(word_bit(w, b) == (word_bit(before[a], b) || b >= sh && word_bit(v, b - sh)));
                    if b >= sh && x >= at + n {
                        assert(!word_bit(v, b - sh));
                    }
                } else if a == k + 1 && sh != 0 && sh + n > 64 {
                    assert(b + (64 - sh) == x - at);
                    if b + (64 - sh) < 64 && x >= at + n {
                        assert(!word_bit(v, b + (64 - sh)));
                    }
                }
            }
        }
    }
}

/// OR `len` bits of the byte stream `src`, starting at bit `src_bit`, into
/// the word bitmap `dst` at bit `dst_bit`. Bits past the end of `src` count
/// as clear.
pub fn copy_bits_or(src: &[u8], src_bit: usize, dst: &mut Vec<u64>, dst_bit: usize, len: usize)
    requires
        src_bit + len + 128 <= usize::MAX,
        dst_bit + len <= usize::MAX,
        dst_bit + len <= old(dst)@.len() * 64,
    ensures
        final(dst)@.len() == old(dst)@.len(),
        forall|x: int| #[trigger] bit(final(dst)@, x) == (bit(old(dst)@, x) || (dst_bit <= x < dst_bit + len && stream_bit(src@, src_bit + (x - dst_bit)))),
{
    let mut done: usize = 0;
    while done < len
        invariant
            done <= len,
            src_bit + len + 128 <= usize::MAX,
            dst_bit + len <= usize::MAX,
            dst_bit + len <= dst@.len() * 64,
            dst@.len() == old(dst)@.len(),
            forall|x: int| #[trigger] bit(dst@, x) == (bit(old(dst)@, x) || (dst_bit <= x < dst_bit + done && stream_bit(src@, src_bit + (x - dst_bit)))),
        decreases len - done,
    {
        let n: usize = if len - done < 64 { len - done } else { 64 };
        let mut v: u64 = read_word(src, src_bit + done);
        if n < 64 {
            proof {
                lemma_word_shift(0, n as u64);
                lemma_word_ops(v, ((1u64 << (n as u64)) - 1) as u64);
            }
            v = v & ((1u64 << (n as u64)) - 1);
        }
        assert(forall|j: int| 0 <= j < 64 ==> #[trigger] word_bit(v, j) == (j < n && stream_bit(src@, (src_bit + done) + j)));
        let ghost was = dst@;
        or_word(dst, dst_bit + done, v, n);
        proof {
            assert forall|x: int| #[trigger] bit(dst@, x) == (bit(old(dst)@, x) || (dst_bit <= x < dst_bit + (done + n) && stream_bit(src@, src_bit + (x - dst_bit)))) by {
                assert(bit(was, x) == (bit(old(dst)@, x) || (dst_bit <= x < dst_bit + done && stream_bit(src@, src_bit + (x - dst_bit)))));
                if dst_bit + done <= x < dst_bit + done + n {
                    let j = x - (dst_bit + done);
                    assert(word_bit(v, j) == stream_bit(src@, (src_bit + done) + j));
                    assert((src_bit + done) + j == src_bit + (x - dst_bit));
                }
            }
        }
        done = done + n;
    }
}

/// The 64 bits of `words` starting at bit `at` (zeros past the end).
pub fn bits_at(words: &[u64], at: usize) -> (r: u64)
    ensures
        forall|j: int| 0 <= j < 64 ==> #[trigger] word_bit(r, j) == bit(words@, at + j),
{
    bits_from(words, at as u64)
}

/// [`bits_at`] for a position that may lie past any index.
pub fn bits_from(words: &[u64], at: u64) -> (r: u64)
    ensures
        forall|j: int| 0 <= j < 64 ==> #[trigger] word_bit(r, j) == bit(words@, at + j),
{
    let w: u64 = at / 64;
    let sh: u64 = at % 64;
    let n: u64 = words.len() as u64;
    let a: u64 = if w < n { words[w as usize] } else { 0 };
    let lo: u64 = a >> sh;
    proof {
        lemma_word_ops(0, 0);
        lemma_word_shift(a, sh);
    }
    if sh == 0 {
        proof {
            assert forall|j: int| 0 <= j < 64 implies #[trigger] word_bit(lo, j) == bit(words@, at + j) by {
                assert((at + j) / 64 == w && (at + j) % 64 == j);
            }
        }
        return lo;
    }
    let b: u64 = if w + 1 < n { words[w as usize + 1] } else { 0 };
    let hi: u64 = b << (64 - sh);
    proof {
        lemma_word_shift(b, (64 - sh) as u64);
        lemma_word_ops(lo, hi);
        assert forall|j: int| 0 <= j < 64 implies #[trigger] word_bit(lo | hi, j) == bit(words@, at + j) by {
            assert(word_bit(lo | hi, j) == (word_bit(lo, j) || word_bit(hi, j)));
            if j + sh < 64 {
                assert(word_bit(lo, j) == word_bit(a, j + sh));
                assert((at + j) / 64 == w && (at + j) % 64 == j + sh);
            } else {
                assert(word_bit(hi, j) == word_bit(b, j - (64 - sh)));
                assert((at + j) / 64 == w + 1 && (at + j) % 64 == j + sh - 64);
            }
        }
    }
    lo | hi
}

} // verus!
