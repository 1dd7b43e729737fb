//! Double-precision values held by their bits (`f64::to_bits`), and the two
//! things the limits need of them: whether a value lies above zero, and the
//! whole number of bytes that a value gives in a unit.

use vstd::arithmetic::div_mod::lemma_div_denominator;
use vstd::arithmetic::power2::{lemma_pow2_pos, pow2};
use vstd::prelude::*;

verus! {

/// `2^52`: the weight of the lowest bit of the exponent field, and the
/// implicit leading bit of a normal significand.
pub const FRACTION_SPAN: u64 = 0x10_0000_0000_0000;

/// `2^63`: the weight of the sign bit.
pub const SIGN_WEIGHT: u64 = 0x8000_0000_0000_0000;

/// The exponent field of infinities and NaNs.
pub const SPECIAL_EXPONENT: u64 = 2047;

/// The sign bit of the value whose bits are `bits`.
pub open spec fn sign_field(bits: u64) -> nat {
    bits as nat / SIGN_WEIGHT as nat
}

/// The exponent field of the value whose bits are `bits`.
pub open spec fn exponent_field(bits: u64) -> nat {
    (bits as nat / FRACTION_SPAN as nat) % 2048
}

/// The fraction field of the value whose bits are `bits`.
pub open spec fn fraction_field(bits: u64) -> nat {
    bits as nat % FRACTION_SPAN as nat
}

/// The value is a number above zero: positive, not zero and not NaN (an
/// infinity counts).
pub open spec fn above_zero(bits: u64) -> bool {
    &&& sign_field(bits) == 0
    &&& exponent_field(bits) != 0 || fraction_field(bits) != 0
    &&& exponent_field(bits) == SPECIAL_EXPONENT ==> fraction_field(bits) == 0
}

/// The significand of a finite value: its fraction field, with the leading
/// bit of a normal value.
pub open spec fn significand(bits: u64) -> nat {
    if exponent_field(bits) == 0 {
        fraction_field(bits)
    } else {
        fraction_field(bits) + FRACTION_SPAN as nat
    }
}

/// The power of two that the significand of a finite value is scaled by.
pub open spec fn scale(bits: u64) -> int {
    if exponent_field(bits) == 0 {
        1 - 1075
    } else {
        exponent_field(bits) - 1075
    }
}

/// The whole part of the magnitude of the value times `mult`: exact, as the
/// value is `significand * 2^scale`. An infinity gives more than any `u64`.
pub open spec fn whole_times(bits: u64, mult: nat) -> nat {
    if exponent_field(bits) == SPECIAL_EXPONENT {
        u64::MAX as nat + 1
    } else if scale(bits) >= 0 {
        significand(bits) * mult * pow2(scale(bits) as nat)
    } else {
        (significand(bits) * mult) / pow2((-scale(bits)) as nat)
    }
}

/// `n`, held at `u64::MAX`, as a cast of a number to `u64` holds it.
pub open spec fn capped(n: nat) -> nat {
    if n > u64::MAX {
        u64::MAX as nat
    } else {
        n
    }
}

/// The value whose bits are `bits` lies above zero (`value > 0.0`).
pub fn is_above_zero(bits: u64) -> (b: bool)
    ensures
        b == above_zero(bits),
{
    let sign = bits / SIGN_WEIGHT;
    let exponent = (bits / FRACTION_SPAN) % 2048;
    let fraction = bits % FRACTION_SPAN;
    sign == 0 && (exponent != 0 || fraction != 0) && (exponent != SPECIAL_EXPONENT || fraction == 0)
}

/// The whole part of the value times `mult`, held at `u64::MAX`: what
/// `(value * mult) as u64` gives for a value above zero where `mult` is a
/// power of two, since scaling by a power of two is exact.
pub fn times_whole(bits: u64, mult: u64) -> (r: u64)
    requires
        mult <= 0x4000_0000,
    ensures
        r == capped(whole_times(bits, mult as nat)),
{
    let exponent = (bits / FRACTION_SPAN) % 2048;
    let fraction = bits % FRACTION_SPAN;
    if exponent == SPECIAL_EXPONENT {
        return u64::MAX;
    }
    let sig: u64 = if exponent == 0 {
        fraction
    } else {
        fraction + FRACTION_SPAN
    };
    assert(sig as nat == significand(bits));
    proof {
        assert((sig as nat) * (mult as nat) <= 0x20_0000_0000_0000 * 0x4000_0000) by (nonlinear_arith)
            requires
                sig < 0x20_0000_0000_0000,
                mult <= 0x4000_0000,
        ;
    }
    let base: u128 = sig as u128 * mult as u128;
    let ghost b = base as nat;
    if exponent >= 1075 {
        // Doubling `exponent - 1075` times, stopping once past `u64::MAX`.
        let shifts = exponent - 1075;
        assert(shifts as int == scale(bits));
        assert(whole_times(bits, mult as nat) == b * pow2(shifts as nat));
        if base > u64::MAX as u128 {
            proof {
                assert(pow2(0) == 1) by {
                    vstd::arithmetic::power2::lemma2_to64();
                }
                lemma_pow2_grows(0, shifts as nat, b);
            }
            return u64::MAX;
        }
        let mut m: u128 = base;
        let mut k: u64 = 0;
        proof {
            assert(pow2(0) == 1) by {
                vstd::arithmetic::power2::lemma2_to64();
            }
        }
        while k < shifts
            invariant
                k <= shifts,
                m as nat == b * pow2(k as nat),
                m <= u64::MAX,
                whole_times(bits, mult as nat) == b * pow2(shifts as nat),
            decreases shifts - k,
        {
            proof {
                vstd::arithmetic::power2::lemma_pow2_unfold((k + 1) as nat);
                assert(b * pow2((k + 1) as nat) == b * pow2(k as nat) * 2) by (nonlinear_arith)
                    requires
                        pow2((k + 1) as nat) == 2 * pow2(k as nat),
                ;
            }
            if m > u64::MAX as u128 / 2 {
                proof {
                    // What is left to double only grows.
                    assert(m * 2 > u64::MAX);
                    lemma_pow2_grows((k + 1) as nat, shifts as nat, b);
                }
                return u64::MAX;
            }
            m = m * 2;
            k = k + 1;
        }
        m as u64
    } else {
        // Halving `1075 - exponent` times (at least once for a subnormal).
        let shifts: u64 = if exponent == 0 {
            1074
        } else {
            1075 - exponent
        };
        assert(shifts as int == -scale(bits));
        let mut m: u128 = base;
        let mut k: u64 = 0;
        proof {
            vstd::arithmetic::power2::lemma2_to64();
        }
        while k < shifts
            invariant
                k <= shifts,
                m as nat == b / pow2(k as nat),
                pow2(k as nat) > 0,
            decreases shifts - k,
        {
            proof {
                vstd::arithmetic::power2::lemma_pow2_unfold((k + 1) as nat);
                lemma_pow2_pos(k as nat);
                lemma_div_denominator(b as int, pow2(k as nat) as int, 2);
                assert(pow2(k as nat) * 2 == pow2((k + 1) as nat));
            }
            m = m / 2;
            k = k + 1;
        }
        proof {
            assert(m <= b) by {
                vstd::arithmetic::div_mod::lemma_div_is_ordered_by_denominator(b as int, 1, pow2(k as nat) as int);
            }
        }
        if m > u64::MAX as u128 {
            u64::MAX
        } else {
            m as u64
        }
    }
}

/// Doubling a number past `u64::MAX` keeps it past: where `b * 2^j` exceeds
/// it, so does `b * 2^n` for any `n >= j`.
proof fn lemma_pow2_grows(j: nat, n: nat, b: nat)
    requires
        j <= n,
        b * pow2(j) > u64::MAX,
    ensures
        b * pow2(n) > u64::MAX,
    decreases n - j,
{
    if j < n {
        vstd::arithmetic::power2::lemma_pow2_unfold(j + 1);
        assert(b * pow2(j + 1) == b * pow2(j) * 2) by (nonlinear_arith)
            requires
                pow2(j + 1) == 2 * pow2(j),
        ;
        lemma_pow2_grows(j + 1, n, b);
    }
}

} // verus!
