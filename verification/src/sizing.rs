//! Filter sizing: how many bits and how many probes a document of a given
//! number of distinct tokens gets at a given target false-positive rate.
//!
//! The rate is a binary32 number and is held as its bit pattern. The sizes
//! follow the usual optimum, `bits = tokens * log2(1 / rate) / ln 2` and
//! `probes = bits / tokens * ln 2`, computed in fixed-point arithmetic with 32
//! fractional bits, so that every platform sizes a document alike.

use vstd::arithmetic::power2::{lemma2_to64, lemma_pow2_strictly_increases, lemma_pow2_unfold, pow2};
use vstd::prelude::*;

verus! {

/// The bit pattern of the binary32 number one: the patterns of the rates
/// between zero and one, both excluded, are those between 0 and this one.
pub const ONE: u32 = 0x3f80_0000;

/// `1 / ln 2` in units of 2^-32, rounded to nearest.
pub const INV_LN2: u64 = 6196328019;

/// `ln 2` in units of 2^-32, rounded to nearest.
pub const LN2: u64 = 2977044472;

/// Whether a binary32 bit pattern stands for a rate above zero and below one.
pub open spec fn valid_rate(bits: u32) -> bool {
    0 < bits < ONE
}

/// The significand of a valid rate: the rate is `significand * 2^-scale`.
pub open spec fn significand(bits: u32) -> nat {
    if bits / 0x80_0000 == 0 {
        (bits % 0x80_0000) as nat
    } else {
        (0x80_0000 + bits % 0x80_0000) as nat
    }
}

/// The binary scale of a valid rate: the rate is `significand * 2^-scale`.
pub open spec fn scale(bits: u32) -> nat {
    if bits / 0x80_0000 == 0 {
        149
    } else {
        (150 - bits / 0x80_0000) as nat
    }
}

/// How often `x` has to be doubled to reach 2^31 or more.
pub open spec fn doublings(x: nat) -> nat
    decreases 0x1_0000_0000 - x,
{
    if 0 < x < 0x8000_0000 {
        1 + doublings(2 * x)
    } else {
        0
    }
}

/// `x` doubled until it is 2^31 or more.
pub open spec fn raised(x: nat) -> nat
    decreases 0x1_0000_0000 - x,
{
    if 0 < x < 0x8000_0000 {
        raised(2 * x)
    } else {
        x
    }
}

/// The binary logarithm of `x / 2^31`, for `x` from 2^31 up to 2^32, in
/// units of `1 / (2 * weight)`: one bit per squaring, the highest first.
pub open spec fn log2_fraction(x: nat, weight: nat) -> nat
    decreases weight,
{
    if weight == 0 {
        0
    } else if x * x >= 0x8000_0000_0000_0000 {
        weight + log2_fraction(x * x / 0x1_0000_0000, weight / 2)
    } else {
        log2_fraction(x * x / 0x8000_0000, weight / 2)
    }
}

/// `log2(1 / rate)` in units of 2^-32.
pub open spec fn log2_inverse(bits: u32) -> int {
    let s = significand(bits);
    (scale(bits) + doublings(s) - 31) * 0x1_0000_0000 - log2_fraction(raised(s), 0x8000_0000)
}

/// The bits that one distinct token is given, in units of 2^-32.
pub open spec fn bits_per_token(bits: u32) -> int {
    log2_inverse(bits) * INV_LN2 / 0x1_0000_0000
}

/// The number of bits of the filter of a document with `tokens` distinct
/// tokens: the tokens times the bits per token, rounded up, at least one and
/// at most `usize::MAX`.
pub open spec fn filter_bits(tokens: nat, bits: u32) -> nat {
    let exact = (tokens * bits_per_token(bits) + 0xffff_ffff) / 0x1_0000_0000;
    if exact < 1 {
        1
    } else if exact > usize::MAX {
        usize::MAX as nat
    } else {
        exact as nat
    }
}

/// The number of probes of a filter of `size` bits for `tokens` distinct
/// tokens: `size / tokens * ln 2`, rounded to nearest, at least one and at
/// most `usize::MAX`.
pub open spec fn filter_probes(tokens: nat, size: nat) -> nat {
    if tokens == 0 {
        1
    } else {
        let exact = (2 * size * LN2 + tokens * 0x1_0000_0000) / ((2 * tokens * 0x1_0000_0000) as int);
        if exact < 1 {
            1
        } else if exact > usize::MAX {
            usize::MAX as nat
        } else {
            exact as nat
        }
    }
}

/// A target false-positive rate: a binary32 number above zero and below one,
/// held as its bit pattern.
#[derive(Clone, Copy, Debug)]
pub struct ErrorRate {
    bits: u32,
}

impl View for ErrorRate {
    type V = u32;

    closed spec fn view(&self) -> u32 {
        self.bits
    }
}

impl ErrorRate {
    /// Whether the rate lies above zero and below one.
    pub open spec fn wf(&self) -> bool {
        valid_rate(self@)
    }

    /// The rate with the given binary32 bit pattern, if it lies above zero
    /// and below one.
    pub fn from_bits(bits: u32) -> (rate: Option<ErrorRate>)
        ensures
            rate is Some <==> valid_rate(bits),
            rate matches Some(r) ==> r@ == bits && r.wf(),
    {
        if 0 < bits && bits < ONE {
            Some(ErrorRate { bits })
        } else {
            None
        }
    }

    /// The binary32 bit pattern of the rate.
    pub fn to_bits(&self) -> (bits: u32)
        ensures
            bits == self@,
    {
        self.bits
    }
}

/// A doubled number needs one doubling less, and is raised to the same.
proof fn lemma_doubling(x: nat)
    requires
        0 < x < 0x8000_0000,
    ensures
        doublings(x) == 1 + doublings(2 * x),
        raised(x) == raised(2 * x),
{
}

/// Computes `log2(1 / rate)` in units of 2^-32.
fn inverse_log2(rate: ErrorRate) -> (l: u64)
    requires
        rate.wf(),
    ensures
        l == log2_inverse(rate@),
        0 < l <= 149 * 0x1_0000_0000,
{
    let bits: u32 = rate.bits;
    let exponent: u32 = bits / 0x80_0000;
    let fraction: u32 = bits % 0x80_0000;
    let whole: u64 = if exponent == 0 {
        149
    } else {
        (150 - exponent) as u64
    };
    let mut x: u64 = if exponent == 0 {
        fraction as u64
    } else {
        0x80_0000 + fraction as u64
    };
    let mut shift: u64 = 0;
    proof {
        lemma2_to64();
    }
    while x < 0x8000_0000
        invariant
            0 < x < 0x1_0000_0000,
            shift <= 31,
            pow2(shift as nat) <= x < 0x100_0000 * pow2(shift as nat),
            doublings(significand(bits)) == shift + doublings(x as nat),
            raised(significand(bits)) == raised(x as nat),
        decreases 0x1_0000_0000 - x,
    {
        proof {
            lemma_doubling(x as nat);
            lemma2_to64();
            if shift >= 31 {
                if shift > 31 {
                    lemma_pow2_strictly_increases(31, shift as nat);
                }
                assert(false);
            }
            lemma_pow2_unfold((shift + 1) as nat);
        }
        x = 2 * x;
        shift = shift + 1;
    }
    proof {
        lemma2_to64();
        if shift < 7 {
            lemma_pow2_strictly_increases(shift as nat, 7);
        }
        assert(shift >= 8);
    }
    let ghost start: nat = x as nat;
    let mut acc: u64 = 0;
    let mut weight: u64 = 0x8000_0000;
    while weight > 0
        invariant
            0x8000_0000 <= x < 0x1_0000_0000,
            weight <= 0x8000_0000,
            acc + 2 * weight <= 0x1_0000_0000,
            weight == 0 ==> acc < 0x1_0000_0000,
            log2_fraction(start, 0x8000_0000) == acc + log2_fraction(x as nat, weight as nat),
        decreases weight,
    {
        assert(0x4000_0000_0000_0000 <= x * x < 0x1_0000_0000_0000_0000) by (nonlinear_arith)
            requires
                0x8000_0000 <= x < 0x1_0000_0000,
        ;
        let square: u64 = x * x;
        if square >= 0x8000_0000_0000_0000 {
            acc = acc + weight;
            x = square / 0x1_0000_0000;
        } else {
            x = square / 0x8000_0000;
        }
        weight = weight / 2;
    }
    (whole + shift - 31) * 0x1_0000_0000 - acc
}

/// Computes the bits and the probes of the filter of a document with
/// `tokens` distinct tokens.
pub fn filter_size(tokens: usize, rate: ErrorRate) -> (size: (usize, usize))
    requires
        rate.wf(),
    ensures
        size.0 == filter_bits(tokens as nat, rate@),
        size.1 == filter_probes(tokens as nat, size.0 as nat),
        size.0 >= 1,
        size.1 >= 1,
{
    let log: u64 = inverse_log2(rate);
    let per_token: u128 = (log as u128) * (INV_LN2 as u128) / 0x1_0000_0000u128;
    assert(per_token <= 0x200_0000_0000) by {
        assert(log * INV_LN2 <= 149 * 0x1_0000_0000 * 6196328019) by (nonlinear_arith)
            requires
                0 <= log <= 149 * 0x1_0000_0000,
                INV_LN2 == 6196328019,
        ;
    }
    assert(tokens * per_token <= 0xffff_ffff_ffff_ffff * 0x200_0000_0000) by (nonlinear_arith)
        requires
            0 <= tokens <= 0xffff_ffff_ffff_ffff,
            0 <= per_token <= 0x200_0000_0000,
    ;
    let exact: u128 = ((tokens as u128) * per_token + 0xffff_ffffu128) / 0x1_0000_0000u128;
    let bits: usize = if exact < 1 {
        1
    } else if exact > usize::MAX as u128 {
        usize::MAX
    } else {
        exact as usize
    };
    if tokens == 0 {
        return (bits, 1);
    }
    assert(2 * bits * LN2 <= 2 * 0xffff_ffff_ffff_ffff * 2977044472) by (nonlinear_arith)
        requires
            0 <= bits <= 0xffff_ffff_ffff_ffff,
            LN2 == 2977044472,
    ;
    let doubled: u128 = 2 * (bits as u128) * (LN2 as u128) + (tokens as u128) * 0x1_0000_0000u128;
    let rounded: u128 = doubled / (2 * (tokens as u128) * 0x1_0000_0000u128);
    let probes: usize = if rounded < 1 {
        1
    } else if rounded > usize::MAX as u128 {
        usize::MAX
    } else {
        rounded as usize
    };
    (bits, probes)
}

} // verus!
