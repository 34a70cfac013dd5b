//! How many draw lists the list hierarchy holds, level by level.
//!
//! Level 0 is a single list that covers the whole target. Every level `k`
//! between it and the finest level is a square grid of `2^(k+1) + 4` lists a
//! side (the grid of the level plus a border ring), and the finest level `r`
//! is a plain `2^r` by `2^r` grid. Lists are numbered level after level, so a
//! level starts at the number of lists on all coarser levels.
use vstd::prelude::*;
use vstd::arithmetic::power2::{pow2, lemma_pow2_adds, lemma_pow2_unfold, lemma_pow2_pos};
use vstd::bits::lemma_u32_shl_is_mul;

verus! {

/// Number of lists on level `k`, for a level that is not the finest one.
pub open spec fn lists_on_level(k: nat) -> nat {
    if k == 0 {
        1
    } else {
        (pow2(k + 1) + 4) * (pow2(k + 1) + 4)
    }
}

/// Number of lists on the finest level `r`: a `2^r` by `2^r` grid.
pub open spec fn lists_on_finest_level(r: nat) -> nat {
    pow2(2 * r)
}

/// Number of lists on all levels coarser than `level`: the index at which the
/// lists of `level` start.
pub open spec fn lists_above(level: nat) -> nat
    decreases level,
{
    if level == 0 {
        0
    } else {
        lists_above((level - 1) as nat) + lists_on_level((level - 1) as nat)
    }
}

/// The sample fraction bits that the hierarchy is sized for, brought into `1..=11`.
pub open spec fn clamped_fraction_bits(bits: u32) -> nat {
    if bits < 1 {
        1
    } else if bits > 11 {
        11
    } else {
        bits as nat
    }
}

/// The finest level of the hierarchy for a number of sample fraction bits.
pub open spec fn root_level(bits: u32) -> nat {
    (11 - clamped_fraction_bits(bits)) as nat
}

/// Number of lists of the whole hierarchy: all coarser levels, then the finest one.
pub open spec fn total_lists(bits: u32) -> nat {
    lists_above(root_level(bits)) + lists_on_finest_level(root_level(bits))
}

/// The sum of `4^k` for `k < level`, as the alternating mask computes it.
pub open spec fn alternating_mask(level: u32) -> u32 {
    0x5555_5555u32 & (((1u32 << ((2 * level) as u32)) - 1) as u32)
}

proof fn lemma_alternating_mask_step(level: u32)
    by (bit_vector)
    requires
        level < 15,
    ensures
        alternating_mask((level + 1) as u32) == alternating_mask(level) + (1u32 << ((2 * level) as u32)),
        alternating_mask(level) <= 0x1555_5555u32,
{
}

proof fn lemma_alternating_mask_one()
    by (bit_vector)
    ensures
        alternating_mask(1) == 1u32,
{
}

pub proof fn lemma_alternating_mask_bound(level: u32)
    by (bit_vector)
    requires
        1 <= level <= 15,
    ensures
        1 <= alternating_mask(level) <= 0x1555_5555u32,
{
}

/// `1 << e` is `2^e` for every shift that stays inside a `u32`.
pub proof fn lemma_shl_one(e: u32)
    requires
        e < 32,
    ensures
        (1u32 << e) == pow2(e as nat),
        pow2(e as nat) <= 0x8000_0000,
{
    vstd::bits::lemma_u32_pow2_no_overflow(e as nat);
    lemma_pow2_pos(e as nat);
    if e < 31 {
        vstd::arithmetic::power2::lemma_pow2_strictly_increases(e as nat, 31);
    }
    vstd::arithmetic::power2::lemma2_to64();
    lemma_u32_shl_is_mul(1, e);
}

/// The closed form that the executable level offset computes.
pub proof fn lemma_level_offset_closed_form(level: u32)
    requires
        1 <= level <= 15,
    ensures
        1 + 4 * (alternating_mask(level) - 1) + 16 * pow2(level as nat) - 32 + 16 * (level - 1)
            == lists_above(level as nat),
    decreases level,
{
    if level == 1 {
        lemma_alternating_mask_one();
        vstd::arithmetic::power2::lemma2_to64();
        assert(lists_above(1) == lists_above(0) + lists_on_level(0));
    } else {
        let l = (level - 1) as u32;
        lemma_level_offset_closed_form(l);
        lemma_alternating_mask_step(l);
        lemma_shl_one((2 * l) as u32);
        let p = pow2(l as nat);
        lemma_pow2_unfold(level as nat);
        lemma_pow2_unfold((level + 1) as nat);
        lemma_pow2_adds(l as nat, l as nat);
        assert(pow2((2 * l) as nat) == p * p);
        assert(lists_above(level as nat) == lists_above(l as nat) + lists_on_level(l as nat));
        assert(lists_on_level(l as nat) == (2 * p + 4) * (2 * p + 4)) by {
            lemma_pow2_unfold((l + 1) as nat);
        }
        assert((2 * p + 4) * (2 * p + 4) == 4 * (p * p) + 16 * p + 16) by (nonlinear_arith);
    }
}

} // verus!
