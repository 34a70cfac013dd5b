//! The sample grid of the render target: how many fraction bits a coordinate
//! gets so that the target's largest side still fits in fifteen bits.
use vstd::prelude::*;
use vstd::arithmetic::power2::{pow2, lemma_pow2_adds, lemma_pow2_unfold, lemma_pow2_pos, lemma_pow2_strictly_increases};
use vstd::std_specs::bits::{u32_leading_zeros, axiom_u32_leading_zeros};

verus! {

/// Bits of a sample coordinate: integer part and fraction together.
pub const COORDINATE_BITS: u32 = 15;

/// Fewest fraction bits that the renderer works with.
pub const MIN_FRACTION_BITS: u32 = 2;

/// Number of significant bits of `x`.
pub open spec fn bit_length(x: nat) -> nat
    decreases x,
{
    if x == 0 {
        0
    } else {
        1 + bit_length(x / 2)
    }
}

/// The fraction bits for a target whose larger side is `extent`: what is left
/// of fifteen bits after the integer part, where that leaves at least two.
pub open spec fn fraction_bits_for(extent: u32) -> Option<u32> {
    if bit_length(extent as nat) + MIN_FRACTION_BITS <= COORDINATE_BITS {
        Some((COORDINATE_BITS - bit_length(extent as nat)) as u32)
    } else {
        None
    }
}

/// The larger side of a `width` by `height` target.
pub open spec fn extent_of(width: u32, height: u32) -> u32 {
    if width >= height {
        width
    } else {
        height
    }
}

/// `bit_length(x)` bits hold `x`, and no fewer do.
pub proof fn lemma_bit_length(x: nat)
    ensures
        x < pow2(bit_length(x)),
        x > 0 ==> pow2((bit_length(x) - 1) as nat) <= x,
    decreases x,
{
    if x > 0 {
        lemma_bit_length(x / 2);
        lemma_pow2_unfold(bit_length(x));
        if x / 2 > 0 {
            lemma_pow2_unfold((bit_length(x) - 1) as nat);
        } else {
            vstd::arithmetic::power2::lemma2_to64();
        }
    } else {
        lemma_pow2_pos(0);
    }
}

/// A bit count `n` with `2^(n-1) <= x < 2^n` is the bit length of `x`.
pub proof fn lemma_bit_length_unique(x: nat, n: nat)
    requires
        x < pow2(n),
        x == 0 ==> n == 0,
        x > 0 ==> n >= 1 && pow2((n - 1) as nat) <= x,
    ensures
        bit_length(x) == n,
{
    lemma_bit_length(x);
    let b = bit_length(x);
    if x > 0 {
        if b < n {
            if b < (n - 1) as nat {
                lemma_pow2_strictly_increases(b, (n - 1) as nat);
            }
        } else if b > n {
            if n < (b - 1) as nat {
                lemma_pow2_strictly_increases(n, (b - 1) as nat);
            }
        }
    }
}

/// `32 - x.leading_zeros()` is the bit length of `x`.
proof fn lemma_leading_zeros_bit_length(x: u32)
    ensures
        32 - u32_leading_zeros(x) == bit_length(x as nat),
{
    axiom_u32_leading_zeros(x);
    let lz = u32_leading_zeros(x);
    let n = (32 - lz) as u32;
    vstd::arithmetic::power2::lemma2_to64();
    if n < 32 {
        vstd::bits::lemma_u32_shr_is_div(x, n);
        assert(x >> n == 0);
        assert(x < pow2(n as nat)) by {
            lemma_pow2_pos(n as nat);
            vstd::arithmetic::div_mod::lemma_div_is_ordered_by_denominator(x as int, 1, pow2(n as nat) as int);
            if x >= pow2(n as nat) {
                vstd::arithmetic::div_mod::lemma_div_is_ordered(pow2(n as nat) as int, x as int, pow2(n as nat) as int);
                vstd::arithmetic::div_mod::lemma_div_by_self(pow2(n as nat) as int);
            }
        }
    }
    if x > 0 {
        assert(lz < 32);
        let m = (31 - lz) as u32;
        assert((x >> m) & 1u32 != 0u32);
        assert(x >> m != 0) by {
            let y = x >> m;
            assert(y & 1u32 != 0u32 ==> y != 0u32) by (bit_vector);
        }
        vstd::bits::lemma_u32_shr_is_div(x, m);
        lemma_pow2_pos(m as nat);
        assert(x as nat / pow2(m as nat) != 0);
        if x < pow2(m as nat) {
            vstd::arithmetic::div_mod::lemma_basic_div(x as int, pow2(m as nat) as int);
        }
    }
    lemma_bit_length_unique(x as nat, n as nat);
}

/// The fraction bits for a `width` by `height` target, none where its larger
/// side needs more than thirteen bits.
pub fn sample_fraction_bits(width: u32, height: u32) -> (bits: Option<u32>)
    ensures
        bits == fraction_bits_for(extent_of(width, height)),
{
    let extent = if width >= height {
        width
    } else {
        height
    };
    proof {
        lemma_leading_zeros_bit_length(extent);
    }
    let significant = 32 - extent.leading_zeros();
    match COORDINATE_BITS.checked_sub(significant) {
        Some(bits) => {
            if bits >= MIN_FRACTION_BITS {
                Some(bits)
            } else {
                None
            }
        },
        None => None,
    }
}

/// With the fraction bits of a target, its larger side fits the fifteen bits
/// of a sample coordinate and, unless it is zero, fills the top one.
pub proof fn lemma_fraction_bits_fit(extent: u32)
    requires
        fraction_bits_for(extent) is Some,
    ensures
        ({
            let bits = fraction_bits_for(extent)->0;
            &&& MIN_FRACTION_BITS <= bits <= COORDINATE_BITS
            &&& extent * pow2(bits as nat) < pow2(COORDINATE_BITS as nat)
            &&& extent > 0 ==> pow2((COORDINATE_BITS - 1) as nat) <= extent * pow2(bits as nat)
        }),
{
    let b = bit_length(extent as nat);
    let bits = (COORDINATE_BITS - b) as nat;
    lemma_bit_length(extent as nat);
    lemma_pow2_adds(b, bits);
    if extent > 0 {
        lemma_pow2_adds((b - 1) as nat, bits);
        assert(extent * pow2(bits) >= pow2((b - 1) as nat) * pow2(bits)) by (nonlinear_arith)
            requires
                extent >= pow2((b - 1) as nat),
        ;
    }
    lemma_pow2_pos(bits);
    assert(extent * pow2(bits) < pow2(b) * pow2(bits)) by (nonlinear_arith)
        requires
            extent < pow2(b),
            pow2(bits) > 0,
    ;
}

} // verus!
