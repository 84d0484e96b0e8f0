//! Little-endian numbers.

use vstd::prelude::*;
use crate::varint::embeds;

verus! {

/// The `n` low bytes of a number, lowest first.
pub open spec fn le_seq(v: nat, n: nat) -> Seq<u8>
    decreases n,
{
    if n == 0 {
        Seq::empty()
    } else {
        seq![(v % 256) as u8] + le_seq(v / 256, (n - 1) as nat)
    }
}

/// The number that `n` bytes at `pos` stand for.
pub open spec fn le_val(b: Seq<u8>, pos: int, n: nat) -> nat
    decreases n,
{
    if n == 0 {
        0
    } else {
        (b[pos] + 256 * le_val(b, pos + 1, (n - 1) as nat)) as nat
    }
}

/// One past the largest number of `n` bytes.
pub open spec fn le_limit(n: nat) -> nat
    decreases n,
{
    if n == 0 {
        1
    } else {
        256 * le_limit((n - 1) as nat)
    }
}

pub proof fn lemma_le_limits()
    ensures
        le_limit(1) == 256,
        le_limit(2) == 0x1_0000,
        le_limit(4) == 0x1_0000_0000,
        le_limit(8) == 0x1_0000_0000_0000_0000,
{
    reveal_with_fuel(le_limit, 9);
}

pub proof fn lemma_le_seq_len(v: nat, n: nat)
    ensures
        le_seq(v, n).len() == n,
    decreases n,
{
    if n > 0 {
        lemma_le_seq_len(v / 256, (n - 1) as nat);
    }
}

pub proof fn lemma_le_val_bound(b: Seq<u8>, pos: int, n: nat)
    ensures
        le_val(b, pos, n) < le_limit(n),
    decreases n,
{
    if n > 0 {
        lemma_le_val_bound(b, pos + 1, (n - 1) as nat);
    }
}

/// A number reads back from its bytes.
pub proof fn lemma_le_at(b: Seq<u8>, pos: int, v: nat, n: nat)
    requires
        embeds(le_seq(v, n), b, pos),
        v < le_limit(n),
    ensures
        le_val(b, pos, n) == v,
    decreases n,
{
    if n > 0 {
        let s = le_seq(v, n);
        let t = le_seq(v / 256, (n - 1) as nat);
        lemma_le_seq_len(v, n);
        lemma_le_seq_len(v / 256, (n - 1) as nat);
        assert(s[0] == b[pos + 0]);
        assert forall|i: int| 0 <= i < t.len() implies #[trigger] t[i] == b[pos + 1 + i] by {
            assert(s[i + 1] == t[i]);
            assert(s[i + 1] == b[pos + (i + 1)]);
        }
        lemma_le_at(b, pos + 1, v / 256, (n - 1) as nat);
    }
}

/// Bytes read as their number and written again are the same.
pub proof fn lemma_le_back(b: Seq<u8>, pos: int, n: nat)
    requires
        0 <= pos,
        pos + n <= b.len(),
    ensures
        le_seq(le_val(b, pos, n), n) == b.subrange(pos, pos + n),
    decreases n,
{
    let r = b.subrange(pos, pos + n);
    if n > 0 {
        lemma_le_back(b, pos + 1, (n - 1) as nat);
        let rest = le_val(b, pos + 1, (n - 1) as nat);
        let v = le_val(b, pos, n);
        assert(v % 256 == b[pos] && v / 256 == rest);
        assert(le_seq(v, n) =~= r) by {
            let t = le_seq(rest, (n - 1) as nat);
            lemma_le_seq_len(rest, (n - 1) as nat);
            assert forall|i: int| 0 <= i < n implies (seq![(v % 256) as u8] + t)[i] == r[i] by {
                if i > 0 {
                    assert(t[i - 1] == b.subrange(pos + 1, pos + n)[i - 1]);
                }
            }
        }
    } else {
        assert(r =~= Seq::empty());
    }
}

/// A number reads the same wherever its bytes stand.
pub proof fn lemma_le_embeds(a: Seq<u8>, b: Seq<u8>, off: int, pos: int, n: nat)
    requires
        embeds(a, b, off),
        0 <= pos,
        pos + n <= a.len(),
    ensures
        le_val(b, off + pos, n) == le_val(a, pos, n),
    decreases n,
{
    if n > 0 {
        assert(a[pos] == b[off + pos]);
        lemma_le_embeds(a, b, off, pos + 1, (n - 1) as nat);
        assert(off + (pos + 1) == off + pos + 1);
    }
}

/// Append the `n` low bytes of `v`.
pub fn put_le(out: &mut Vec<u8>, v: u64, n: usize)
    requires
        n <= 8,
    ensures
        final(out)@ == old(out)@ + le_seq(v as nat, n as nat),
        final(out)@.len() == old(out)@.len() + n,
{
    let mut rest: u64 = v;
    let mut k: usize = 0;
    let ghost start = out@;
    proof {
        assert(out@ + le_seq(v as nat, n as nat) =~= start + le_seq(v as nat, n as nat));
    }
    while k < n
        invariant
            k <= n <= 8,
            out@.len() == start.len() + k,
            out@ + le_seq(rest as nat, (n - k) as nat) == start + le_seq(v as nat, n as nat),
        decreases n - k,
    {
        let ghost was = out@;
        out.push((rest % 256) as u8);
        proof {
            let t = le_seq((rest / 256) as nat, (n - k - 1) as nat);
            assert(out@ + t =~= was + (seq![(rest % 256) as u8] + t));
        }
        rest = rest / 256;
        k = k + 1;
    }
    proof {
        assert(out@ =~= start + le_seq(v as nat, n as nat));
    }
}

/// The number that `n` bytes at `pos` stand for.
pub fn get_le(b: &[u8], pos: usize, n: usize) -> (r: u64)
    requires
        n <= 8,
        pos + n <= b@.len(),
    ensures
        r == le_val(b@, pos as int, n as nat),
        r < le_limit(n as nat),
    decreases n,
{
    proof {
        lemma_le_val_bound(b@, pos as int, n as nat);
        lemma_limit_small(n as nat);
        if n > 0 {
            lemma_le_val_bound(b@, pos + 1, (n - 1) as nat);
        }
    }
    if n == 0 {
        return 0;
    }
    let len: usize = b.len();
    let rest: u64 = get_le(b, pos + 1, n - 1);
    b[pos] as u64 + 256 * rest
}

proof fn lemma_limit_small(n: nat)
    requires
        n <= 8,
    ensures
        le_limit(n) <= 0x1_0000_0000_0000_0000,
{
    reveal_with_fuel(le_limit, 9);
}

} // verus!
