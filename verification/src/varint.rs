//! LEB128 unsigned varints.

use vstd::prelude::*;
use vstd::arithmetic::power2::{lemma_pow2_adds, lemma_pow2_pos, lemma2_to64, pow2};

verus! {

/// One past the largest `u64`.
pub open spec fn two_64() -> nat {
    0x1_0000_0000_0000_0000
}

/// The varint of a number: seven bits a byte, low bits first, the top bit set
/// on every byte but the last.
pub open spec fn leb_bytes(v: nat) -> Seq<u8>
    decreases v,
{
    if v < 128 {
        seq![v as u8]
    } else {
        seq![(v % 128 + 128) as u8] + leb_bytes(v / 128)
    }
}

/// How many bytes the varint at `pos` takes; 0 if no byte ends it.
pub open spec fn leb_len(b: Seq<u8>, pos: int) -> int
    decreases b.len() - pos,
{
    if pos < 0 || pos >= b.len() {
        0
    } else if b[pos] < 128 {
        1
    } else {
        let rest = leb_len(b, pos + 1);
        if rest == 0 {
            0
        } else {
            rest + 1
        }
    }
}

/// The number that the varint at `pos` stands for.
pub open spec fn leb_val(b: Seq<u8>, pos: int) -> nat
    decreases b.len() - pos,
{
    if pos < 0 || pos >= b.len() {
        0
    } else if b[pos] < 128 {
        b[pos] as nat
    } else {
        ((b[pos] - 128) + 128 * leb_val(b, pos + 1)) as nat
    }
}

/// A whole varint stands at `pos`.
pub open spec fn leb_ok(b: Seq<u8>, pos: int) -> bool {
    1 <= leb_len(b, pos) <= 10
}

/// The bytes `a` stand in `b` from `off` on.
pub open spec fn embeds(a: Seq<u8>, b: Seq<u8>, off: int) -> bool {
    &&& 0 <= off
    &&& off + a.len() <= b.len()
    &&& forall|i: int| 0 <= i < a.len() ==> #[trigger] a[i] == b[off + i]
}

/// Append the varint of `v`.
pub fn put(out: &mut Vec<u8>, v: u64)
    ensures
        final(out)@ == old(out)@ + leb_bytes(v as nat),
        embeds(old(out)@, final(out)@, 0),
        leb_ok(final(out)@, old(out)@.len() as int),
        leb_val(final(out)@, old(out)@.len() as int) == v,
        leb_len(final(out)@, old(out)@.len() as int) == leb_bytes(v as nat).len(),
        final(out)@.len() <= old(out)@.len() + 10,
{
    let ghost start = out@;
    let mut rest: u64 = v;
    while rest >= 0x80
        invariant
            start + leb_bytes(v as nat) == out@ + leb_bytes(rest as nat),
        decreases rest,
    {
        let low: u8 = (rest % 128) as u8 + 128;
        let ghost was = out@;
        out.push(low);
        proof {
            assert(out@ + leb_bytes(rest as nat / 128) =~= was + leb_bytes(rest as nat));
        }
        rest = rest / 128;
    }
    let ghost was = out@;
    out.push(rest as u8);
    proof {
        assert(out@ =~= was + leb_bytes(rest as nat));
        lemma_leb_at(out@, start.len() as int, v as nat);
        lemma_leb_bytes_len(v as nat);
    }
}

/// Decode at `*pos`, advancing it. The bits of an over-long encoding that do
/// not fit a `u64` are dropped.
pub fn get(buf: &[u8], pos: &mut usize) -> (r: u64)
    requires
        leb_ok(buf@, *old(pos) as int),
    ensures
        r == leb_val(buf@, *old(pos) as int) % two_64(),
        *final(pos) == *old(pos) + leb_len(buf@, *old(pos) as int),
        *final(pos) <= buf@.len(),
{
    let ghost start = *pos as int;
    let mut v: u64 = 0;
    let mut shift: u64 = 0;
    proof {
        lemma2_to64();
        lemma_leb_len_bound(buf@, start);
    }
    loop
        invariant
            start == *old(pos),
            start <= *pos < buf@.len(),
            leb_len(buf@, *pos as int) >= 1,
            shift == 7 * (*pos - start),
            leb_len(buf@, start) == *pos - start + leb_len(buf@, *pos as int),
            leb_len(buf@, start) <= 10,
            leb_val(buf@, start) == v + pow2(shift as nat) * leb_val(buf@, *pos as int),
            v < pow2(shift as nat),
        decreases buf@.len() - *pos,
    {
        let b: u8 = buf[*pos];
        let ghost at = *pos as int;
        let ghost rest = leb_val(buf@, at + 1);
        *pos = *pos + 1;
        let low: u64 = (b % 128) as u64;
        let ghost was = v;
        proof {
            lemma_place(v, low, shift);
            lemma_pow2_adds(shift as nat, 7);
            lemma_pow2_pos(shift as nat);
            lemma2_to64();
            lemma_leb_len_bound(buf@, at + 1);
        }
        v = v | (low << shift);
        if b < 128 {
            proof {
                if shift == 63 {
                    assert(pow2(63) == 0x8000_0000_0000_0000) by {
                        vstd::arithmetic::power2::lemma2_to64_rest();
                    }
                    assert(leb_val(buf@, start) == was + pow2(63) * low);
                    lemma_top(was as int, low as int);
                } else {
                    lemma_fits(was, low, shift);
                }
            }
            return v;
        }
        proof {
            let p = pow2(shift as nat) as int;
            assert(leb_val(buf@, at) == low + 128 * rest);
            assert(shift <= 56);
            lemma_fits(was, low, shift);
            assert(v == was + p * low);
            assert(p * (low + 128 * rest) == p * low + (p * 128) * rest) by (nonlinear_arith);
            assert(p * low + was < p * 128) by (nonlinear_arith)
                requires
                    low <= 127,
                    was < p,
            ;
        }
        shift = shift + 7;
    }
}

proof fn lemma_fits(v: u64, low: u64, shift: u64)
    requires
        low < 128,
        shift <= 56,
        v < pow2(shift as nat),
    ensures
        v + pow2(shift as nat) * low < two_64(),
        v | (low << shift) == v + pow2(shift as nat) * low,
{
    lemma_place(v, low, shift);
    lemma_pow2_adds(shift as nat, 7);
    lemma_pow2_adds((shift + 7) as nat, (64 - shift - 7) as nat);
    lemma2_to64();
    vstd::arithmetic::power2::lemma2_to64_rest();
    let p = pow2(shift as nat) as int;
    let q = pow2((64 - shift - 7) as nat) as int;
    lemma_pow2_pos((64 - shift - 7) as nat);
    assert(p * 128 <= two_64()) by (nonlinear_arith)
        requires
            (p * 128) * q == two_64(),
            q >= 1,
            p >= 0,
    ;
    assert(p * low + v < p * 128) by (nonlinear_arith)
        requires
            low <= 127,
            v < p,
    ;
    vstd::bits::lemma_u64_shl_is_mul(low, shift);
}

proof fn lemma_top(v: int, low: int)
    requires
        0 <= v < 0x8000_0000_0000_0000,
        0 <= low < 128,
    ensures
        (v + 0x8000_0000_0000_0000 * low) % (two_64() as int) == v + 0x8000_0000_0000_0000 * (low % 2),
{
    assert((v + 0x8000_0000_0000_0000 * low) % (two_64() as int) == v + 0x8000_0000_0000_0000 * (low % 2))
        by (nonlinear_arith)
        requires
            0 <= v < 0x8000_0000_0000_0000,
            0 <= low < 128,
            two_64() == 0x1_0000_0000_0000_0000,
    ;
}

/// Placing seven bits above the ones already there.
proof fn lemma_place(v: u64, low: u64, shift: u64)
    requires
        low < 128,
        shift <= 63,
        v < pow2(shift as nat),
    ensures
        v | (low << shift) == v + (low << shift),
        shift == 63 ==> low << shift == 0x8000_0000_0000_0000 * (low % 2),
{
    vstd::bits::lemma_u64_pow2_no_overflow(shift as nat);
    vstd::bits::lemma_u64_shl_is_mul(1, shift);
    assert(shift <= 63 && v < (1u64 << shift) && low < 128 ==> v | (low << shift) == v + (low << shift)
        && (shift == 63 ==> low << shift == 0x8000_0000_0000_0000 * (low % 2))) by (bit_vector);
}

// ---------------------------------------------------------------------------
// Laws
// ---------------------------------------------------------------------------

/// Decoding the varint of a number gives the number back, and stops right
/// after it.
pub proof fn lemma_leb_at(b: Seq<u8>, pos: int, v: nat)
    requires
        0 <= pos,
        embeds(leb_bytes(v), b, pos),
    ensures
        leb_val(b, pos) == v,
        leb_len(b, pos) == leb_bytes(v).len(),
    decreases v,
{
    let e = leb_bytes(v);
    assert(e[0] == b[pos + 0]);
    if v >= 128 {
        let t = leb_bytes(v / 128);
        assert forall|i: int| 0 <= i < t.len() implies #[trigger] t[i] == b[pos + 1 + i] by {
            assert(t[i] == e[i + 1]);
            assert(e[i + 1] == b[pos + (i + 1)]);
        }
        lemma_leb_at(b, pos + 1, v / 128);
        lemma_leb_bytes_nonempty(v / 128);
        assert(v == v % 128 + 128 * (v / 128));
    }
}

proof fn lemma_leb_bytes_nonempty(v: nat)
    ensures
        leb_bytes(v).len() >= 1,
    decreases v,
{
    if v >= 128 {
        lemma_leb_bytes_nonempty(v / 128);
    }
}

/// A `u64` takes at most ten bytes.
pub proof fn lemma_leb_bytes_len(v: nat)
    requires
        v < two_64(),
    ensures
        1 <= leb_bytes(v).len() <= 10,
{
    reveal_with_fuel(leb_bytes, 11);
}

pub proof fn lemma_leb_len_bound(b: Seq<u8>, pos: int)
    ensures
        leb_len(b, pos) >= 0,
        leb_len(b, pos) > 0 ==> 0 <= pos && pos + leb_len(b, pos) <= b.len(),
    decreases b.len() - pos,
{
    if 0 <= pos < b.len() && b[pos] >= 128 {
        lemma_leb_len_bound(b, pos + 1);
    }
}

/// A varint reads the same wherever its bytes stand.
pub proof fn lemma_leb_embeds(a: Seq<u8>, b: Seq<u8>, off: int, pos: int)
    requires
        embeds(a, b, off),
        leb_len(a, pos) > 0,
    ensures
        leb_len(b, off + pos) == leb_len(a, pos),
        leb_val(b, off + pos) == leb_val(a, pos),
    decreases a.len() - pos,
{
    assert(a[pos] == b[off + pos]);
    if a[pos] >= 128 {
        lemma_leb_embeds(a, b, off, pos + 1);
        assert(off + (pos + 1) == off + pos + 1);
    }
}

} // verus!
