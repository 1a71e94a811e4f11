//! Little-endian integers in byte buffers.
use vstd::arithmetic::power2::*;
use vstd::prelude::*;

verus! {

/// The `n` bytes at `off`, least significant first.
pub open spec fn le_value(s: Seq<u8>, off: int, n: nat) -> nat
    decreases n,
{
    if n == 0 {
        0
    } else {
        s[off] as nat + 256 * le_value(s, off + 1, (n - 1) as nat)
    }
}

pub proof fn lemma_le_bound(s: Seq<u8>, off: int, n: nat)
    ensures
        le_value(s, off, n) < pow2(8 * n),
    decreases n,
{
    lemma2_to64();
    if n > 0 {
        lemma_le_bound(s, off + 1, (n - 1) as nat);
        lemma_pow2_adds(8, (8 * (n - 1)) as nat);
    }
}

/// Bytes outside the window do not matter.
pub proof fn lemma_le_frame(s: Seq<u8>, t: Seq<u8>, off: int, n: nat)
    requires
        forall|k: int| off <= k < off + n ==> #[trigger] s[k] == t[k],
    ensures
        le_value(s, off, n) == le_value(t, off, n),
    decreases n,
{
    if n > 0 {
        lemma_le_frame(s, t, off + 1, (n - 1) as nat);
    }
}

pub proof fn lemma_byte_width(n: nat)
    requires
        n <= 8,
    ensures
        pow2(8 * n) <= 0x1_0000_0000_0000_0000,
        n == 0 ==> pow2(8 * n) == 1,
        n == 1 ==> pow2(8 * n) == 0x100,
        n == 2 ==> pow2(8 * n) == 0x1_0000,
        n == 4 ==> pow2(8 * n) == 0x1_0000_0000,
        n == 8 ==> pow2(8 * n) == 0x1_0000_0000_0000_0000,
{
    lemma2_to64();
    lemma2_to64_rest();
    if n < 8 {
        lemma_pow2_strictly_increases(8 * n, 64);
    }
}

pub fn load_le(s: &[u8], off: usize, n: usize) -> (r: u64)
    requires
        n <= 8,
        off + n <= s@.len(),
    ensures
        r == le_value(s@, off as int, n as nat),
        r < pow2(8 * n as nat),
    decreases n,
{
    proof {
        lemma_le_bound(s@, off as int, n as nat);
        lemma_byte_width(n as nat);
    }
    if n == 0 {
        0
    } else {
        let len: usize = s.len();
        assert(off + n <= len);
        let hi: u64 = load_le(s, off + 1, n - 1);
        s[off] as u64 + 256 * hi
    }
}

pub fn store_le(s: &mut [u8], off: usize, n: usize, v: u64)
    requires
        n <= 8,
        off + n <= old(s)@.len(),
        v < pow2(8 * n as nat),
    ensures
        final(s)@.len() == old(s)@.len(),
        le_value(final(s)@, off as int, n as nat) == v,
        forall|k: int|
            0 <= k < old(s)@.len() && !(off <= k < off + n) ==> #[trigger] final(s)@[k] == old(
                s,
            )@[k],
    decreases n,
{
    proof {
        lemma2_to64();
        lemma_byte_width(n as nat);
    }
    if n > 0 {
        let b: u8 = (v % 256) as u8;
        proof {
            lemma_pow2_adds(8, (8 * (n - 1)) as nat);
        }
        s[off] = b;
        store_le(s, off + 1, n - 1, v / 256);
    }
}

} // verus!
