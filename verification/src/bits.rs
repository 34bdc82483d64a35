//! Bit-level view of `u128` masks.
//!
//! Every mask in this crate (row masks, diagonal masks, per-column attack
//! masks) is read through `bit128`; the lemmas below relate the bitwise
//! operators used by the solver to that per-bit view.

use vstd::prelude::*;

verus! {

/// True when bit `r` of `m` is set.
pub open spec fn bit128(m: u128, r: u128) -> bool {
    m & (1u128 << r) != 0
}

/// The mask whose bits `0..n` are all set: the playable rows of a board
/// with `n` rows.  Shifting `u128::MAX` avoids any special case at `n == 128`.
pub open spec fn full_mask(n: u128) -> u128
    recommends
        1 <= n <= 128,
{
    u128::MAX >> ((128 - n) as u128)
}

pub proof fn lemma_bit128_zero()
    by (bit_vector)
    ensures
        forall|r: u128| r < 128 ==> !(#[trigger] bit128(0u128, r)),
{
}

pub proof fn lemma_bit128_or()
    by (bit_vector)
    ensures
        forall|a: u128, b: u128, r: u128|
            r < 128 ==> (#[trigger] bit128(a | b, r) <==> bit128(a, r) || bit128(b, r)),
{
}

pub proof fn lemma_bit128_single()
    by (bit_vector)
    ensures
        forall|k: u128, r: u128|
            k < 128 && r < 128 ==> (#[trigger] bit128(1u128 << k, r) <==> r == k),
{
}

pub proof fn lemma_bit128_andnot()
    by (bit_vector)
    ensures
        forall|a: u128, b: u128, r: u128|
            r < 128 ==> (#[trigger] bit128(a & !b, r) <==> bit128(a, r) && !bit128(b, r)),
{
}

pub proof fn lemma_bit128_shr1()
    by (bit_vector)
    ensures
        forall|m: u128, r: u128|
            r < 128 ==> (#[trigger] bit128(m >> 1u128, r) <==> r < 127 && bit128(m, (r + 1) as u128)),
{
}

pub proof fn lemma_bit128_shl1()
    by (bit_vector)
    ensures
        forall|m: u128, r: u128|
            r < 128 ==> (#[trigger] bit128(m << 1u128, r) <==> r >= 1 && bit128(m, (r - 1) as u128)),
{
}

pub proof fn lemma_full_mask()
    by (bit_vector)
    ensures
        forall|n: u128, r: u128|
            1 <= n <= 128 && r < 128 ==> (#[trigger] bit128(full_mask(n), r) <==> r < n),
{
}

} // verus!
