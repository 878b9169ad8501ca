//! The bit masks that the reader and the writer consult on every field access.
use vstd::prelude::*;
use vstd::arithmetic::power2::*;
use vstd::bits::*;

verus! {

/// Mask with the low `n` bits set (`n <= 64`).
pub open spec fn low_mask(n: nat) -> u64 {
    if n >= 64 {
        u64::MAX
    } else {
        ((1u64 << (n as u64)) - 1) as u64
    }
}

/// Mask that clears the `len` bits starting at `start` and keeps all others.
pub open spec fn write_mask(start: nat, len: nat) -> u64 {
    if start + len >= 64 {
        low_mask(start)
    } else {
        low_mask(start) | !low_mask(start + len)
    }
}

pub proof fn lemma_low_mask_value(n: nat)
    requires
        n <= 64,
    ensures
        low_mask(n) as nat == pow2(n) - 1,
{
    if n < 64 {
        let s = n as u64;
        lemma_u64_pow2_no_overflow(n);
        lemma_u64_shl_is_mul(1, s);
        assert((1u64 << s) as nat == pow2(n));
    } else {
        lemma2_to64();
        lemma2_to64_rest();
    }
}

/// The value with exactly bit `bit_num % 64` set.
pub fn get_bit_for_bit_num(bit_num: usize) -> (r: u64)
    ensures
        r as nat == pow2((bit_num % 64) as nat),
{
    let shift = (bit_num & 63) as u64;
    proof {
        assert(bit_num & 63 == bit_num % 64) by (bit_vector);
        lemma_u64_pow2_no_overflow(shift as nat);
        lemma_u64_shl_is_mul(1, shift);
    }
    1u64 << shift
}

/// `extra_mask(n)`: the low `n` bits set, all 64 when `n == 64`.
pub fn extra_mask(n: usize) -> (r: u64)
    requires
        n <= 64,
    ensures
        r == low_mask(n as nat),
        r as nat == pow2(n as nat) - 1,
{
    proof {
        lemma_low_mask_value(n as nat);
    }
    if n == 64 {
        u64::MAX
    } else {
        let s = n as u64;
        assert(1u64 << s >= 1) by (bit_vector)
            requires
                s < 64,
        ;
        (1u64 << s) - 1
    }
}

/// `bit_write_mask(start, len)`: clears exactly the `len` bits beginning at
/// `start`, keeping all other bits.
pub fn bit_write_mask(start: usize, len: usize) -> (r: u64)
    requires
        start < 64,
        len <= 64,
    ensures
        r == write_mask(start as nat, len as nat),
{
    let below = extra_mask(start);
    if start + len >= 64 {
        below
    } else {
        below | !extra_mask(start + len)
    }
}

} // verus!
