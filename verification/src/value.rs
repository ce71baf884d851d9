//! Entropy values and thresholds, held as binary64 bit patterns and read with
//! integer arithmetic only.

use vstd::prelude::*;
use vstd::arithmetic::power2::{
    lemma2_to64, lemma2_to64_rest, lemma_pow2_strictly_increases, lemma_pow2_unfold, pow2,
};

verus! {

/// The sign bit of a pattern; below it stands the magnitude.
pub const SIGN: u64 = 0x8000_0000_0000_0000;

/// The weight of the exponent field's lowest bit, which is also the implicit
/// leading bit of a normal significand.
pub const HIDDEN: u64 = 0x0010_0000_0000_0000;

/// The magnitude of an infinity; every larger magnitude is not a number.
pub const INFINITY: u64 = 0x7FF0_0000_0000_0000;

/// The largest exponent field of an entropy value: such a value lies below 128,
/// which is more than the base-two logarithm of any line length.
pub const LARGEST_EXPONENT: u64 = 1029;

/// The number of ten-thousandths in one.
pub const SCALE: u64 = 10_000;

/// The pattern without its sign.
pub open spec fn magnitude(bits: u64) -> nat {
    (bits % SIGN) as nat
}

/// Whether the sign bit is set.
pub open spec fn is_negative(bits: u64) -> bool {
    bits >= SIGN
}

/// Whether the pattern stands for no number at all.
pub open spec fn is_nan(bits: u64) -> bool {
    magnitude(bits) > INFINITY
}

/// The biased exponent.
pub open spec fn exponent_field(bits: u64) -> nat {
    magnitude(bits) / (HIDDEN as nat)
}

/// The stored bits of the significand.
pub open spec fn fraction_field(bits: u64) -> nat {
    magnitude(bits) % (HIDDEN as nat)
}

/// The significand as an integer: a subnormal has no implicit leading bit.
pub open spec fn significand(bits: u64) -> nat {
    if exponent_field(bits) == 0 {
        fraction_field(bits)
    } else {
        HIDDEN as nat + fraction_field(bits)
    }
}

/// The power of two by which the significand is divided: the magnitude of a
/// pattern whose exponent field is at most 1075 is
/// `significand(bits) / pow2(down_shift(bits))`.
pub open spec fn down_shift(bits: u64) -> nat {
    if exponent_field(bits) == 0 {
        1074
    } else {
        (1075 - exponent_field(bits)) as nat
    }
}

/// An integer that orders the patterns as their numbers are ordered: both
/// zeros share the key 0.
pub open spec fn order_key(bits: u64) -> int {
    if is_negative(bits) {
        -(magnitude(bits) as int)
    } else {
        magnitude(bits) as int
    }
}

/// `left > right` as numbers: false whenever either is not a number.
pub open spec fn greater(left: u64, right: u64) -> bool {
    &&& !is_nan(left)
    &&& !is_nan(right)
    &&& order_key(left) > order_key(right)
}

/// `n / d`, rounded to the nearest integer, a tie to the even one.
pub open spec fn rounded_quotient(n: nat, d: nat) -> nat
    recommends
        d > 0,
{
    let q = n / d;
    let r = n % d;
    if 2 * r > d || (2 * r == d && q % 2 == 1) {
        q + 1
    } else {
        q
    }
}

/// The magnitude in ten-thousandths, rounded to the nearest, a tie to even.
pub open spec fn ten_thousandths(bits: u64) -> nat {
    rounded_quotient(significand(bits) * (SCALE as nat), pow2(down_shift(bits)))
}

/// Whether the pattern can be an entropy: not negative, finite and below 128.
pub open spec fn is_entropy(bits: u64) -> bool {
    !is_negative(bits) && exponent_field(bits) <= LARGEST_EXPONENT
}

/// A finite entropy, zero or more.
#[derive(Clone, Copy, Debug)]
pub struct EntropyValue {
    bits: u64,
}

impl EntropyValue {
    /// The bit pattern of the value.
    pub closed spec fn bits(&self) -> u64 {
        self.bits
    }

    /// The value is one that an entropy can take.
    pub open spec fn wf(&self) -> bool {
        is_entropy(self.bits())
    }

    /// Takes a pattern as an entropy, where it can be one.
    pub fn from_bits(bits: u64) -> (value: Option<EntropyValue>)
        ensures
            value is Some <==> is_entropy(bits),
            value is Some ==> value->0.wf() && value->0.bits() == bits,
    {
        if bits < SIGN && bits / HIDDEN <= LARGEST_EXPONENT {
            Some(EntropyValue { bits })
        } else {
            None
        }
    }

    /// The pattern that the value was made from.
    pub fn to_bits(&self) -> (bits: u64)
        ensures
            bits == self.bits(),
    {
        self.bits
    }

    /// The value in ten-thousandths, rounded to the nearest, a tie to even.
    pub fn ten_thousandths(&self) -> (scaled: u64)
        requires
            self.wf(),
        ensures
            scaled == ten_thousandths(self.bits()),
            scaled <= 128 * SCALE,
    {
        let exponent: u64 = self.bits / HIDDEN;
        let fraction: u64 = self.bits % HIDDEN;
        let whole: u64 = if exponent == 0 {
            fraction
        } else {
            HIDDEN + fraction
        };
        let shift: u64 = if exponent == 0 {
            1074
        } else {
            1075 - exponent
        };
        let n: u128 = (whole as u128) * (SCALE as u128);
        proof {
            lemma_landmarks();
            if shift > 46 {
                lemma_pow2_strictly_increases(46, shift as nat);
            }
            if shift > 69 {
                lemma_pow2_strictly_increases(69, shift as nat);
            }
            if shift < 68 {
                lemma_pow2_strictly_increases(shift as nat, 68);
            }
        }
        if shift >= 69 {
            proof {
                let d = pow2(shift as nat);
                assert(2 * n < d);
                vstd::arithmetic::div_mod::lemma_small_mod(n as nat, d);
                vstd::arithmetic::div_mod::lemma_basic_div(n as int, d as int);
            }
            return 0;
        }
        let d: u128 = power_of_two(shift);
        let q: u128 = n / d;
        let r: u128 = n % d;
        proof {
            assert(d >= 0x4000_0000_0000);
            assert(n < 1_280_000 * 0x4000_0000_0000);
            assert(q < 1_280_000) by (nonlinear_arith)
                requires
                    q == n / d,
                    d >= 0x4000_0000_0000,
                    n < 1_280_000 * 0x4000_0000_0000,
            ;
        }
        if 2 * r > d || (2 * r == d && q % 2 == 1) {
            (q + 1) as u64
        } else {
            q as u64
        }
    }
}

/// The powers of two between which the divisor of an entropy lies.
proof fn lemma_landmarks()
    ensures
        pow2(0) == 1,
        pow2(46) == 0x4000_0000_0000,
        pow2(68) == 0x10_0000_0000_0000_0000,
        pow2(69) == 0x20_0000_0000_0000_0000,
{
    lemma2_to64();
    lemma2_to64_rest();
    lemma_pow2_unfold(65);
    lemma_pow2_unfold(66);
    lemma_pow2_unfold(67);
    lemma_pow2_unfold(68);
    lemma_pow2_unfold(69);
}

/// Two to the power `exponent`.
fn power_of_two(exponent: u64) -> (power: u128)
    requires
        exponent <= 68,
    ensures
        power == pow2(exponent as nat),
{
    let mut power: u128 = 1;
    let mut done: u64 = 0;
    proof {
        lemma_landmarks();
    }
    while done < exponent
        invariant
            done <= exponent <= 68,
            power == pow2(done as nat),
            pow2(68) == 0x10_0000_0000_0000_0000,
        decreases exponent - done,
    {
        proof {
            lemma_pow2_unfold((done + 1) as nat);
            if done + 1 < 68 {
                lemma_pow2_strictly_increases((done + 1) as nat, 68);
            }
        }
        power = power * 2;
        done += 1;
    }
    power
}

/// Whether `left > right` as numbers.
pub fn exceeds(left: u64, right: u64) -> (above: bool)
    ensures
        above == greater(left, right),
{
    let left_size: u64 = left % SIGN;
    let right_size: u64 = right % SIGN;
    if left_size > INFINITY || right_size > INFINITY {
        false
    } else if left >= SIGN {
        right >= SIGN && left_size < right_size
    } else if right >= SIGN {
        left_size > 0 || right_size > 0
    } else {
        left_size > right_size
    }
}

/// Whether an entropy lies strictly above a threshold, which is any binary64
/// pattern. An entropy equal to the threshold does not lie above it, and
/// nothing lies above a threshold that is not a number.
pub fn is_entropy_above_threshold(entropy: EntropyValue, threshold: u64) -> (above: bool)
    requires
        entropy.wf(),
    ensures
        above == greater(entropy.bits(), threshold),
{
    exceeds(entropy.to_bits(), threshold)
}

/// Lowering the threshold keeps every entropy that lay above it: what exceeds
/// the larger of two thresholds exceeds the smaller.
pub proof fn lemma_lower_threshold_keeps(entropy: u64, lower: u64, upper: u64)
    requires
        greater(upper, lower),
        greater(entropy, upper),
    ensures
        greater(entropy, lower),
{
}

} // verus!
