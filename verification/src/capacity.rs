//! Capacity units: the store counts satoshi, readers speak in bitcoin.
//!
//! A bitcoin amount is a binary64 number. It is taken and given here by its
//! bit pattern, and its sign, its value in satoshi and the amount that a
//! capacity comes to are decided in integer arithmetic, with the results
//! that binary64 arithmetic gives.

use vstd::arithmetic::div_mod::{lemma_div_denominator, lemma_fundamental_div_mod, lemma_remainder_lower};
use vstd::arithmetic::power2::{
    lemma2_to64, lemma2_to64_rest, lemma_pow2_adds, lemma_pow2_pos, lemma_pow2_strictly_increases,
    lemma_pow2_unfold, pow2,
};
use vstd::prelude::*;

verus! {

/// Satoshi in one bitcoin.
pub const SATOSHI_PER_BITCOIN: u64 = 100_000_000;

/// The nearest integer to `n / d`, a half rounding up, for a `n` that is
/// not negative and a positive `d`.
pub open spec fn round_half_up(n: int, d: int) -> int {
    (2 * n + d) / (2 * d)
}

/// `round_half_up` gives the nearest integer: the quotient lies no more
/// than a half below it and less than a half above it.
pub proof fn lemma_round_half_up(n: int, d: int)
    requires
        0 <= n,
        0 < d,
    ensures
        (2 * round_half_up(n, d) - 1) * d <= 2 * n < (2 * round_half_up(n, d) + 1) * d,
{
    let rounded = round_half_up(n, d);
    lemma_fundamental_div_mod(2 * n + d, 2 * d);
    assert((2 * d) * rounded == 2 * rounded * d && (2 * rounded - 1) * d == 2 * rounded * d - d && (2
        * rounded + 1) * d == 2 * rounded * d + d) by (nonlinear_arith);
}

/// How many of its low bits an integer has to lose to fit the fifty-three
/// bits of a binary64 significand.
pub open spec fn excess_bits(n: int) -> nat
    decreases n,
{
    if n < 0x20_0000_0000_0000 {
        0
    } else {
        1 + excess_bits(n / 2)
    }
}

/// How many bits a positive integer below 2^80 has to be shifted up by to
/// have eighty-one bits.
pub open spec fn scale_bits(n: int) -> nat
    decreases 0x2_0000_0000_0000_0000_0000 - n,
{
    if n <= 0 || n >= 0x1_0000_0000_0000_0000_0000 {
        0
    } else {
        1 + scale_bits(2 * n)
    }
}

/// The nearest integer to a number between `n / 2^bits` and the next
/// fraction of that form, for a `n` that is not negative: to `n / 2^bits`
/// itself unless `sticky`, and else to a number just above it. A half
/// rounds to the even neighbour; a number just above a half rounds up.
pub open spec fn round_to_nearest(n: int, bits: nat, sticky: bool) -> int {
    let unit = pow2(bits) as int;
    let quotient = n / unit;
    let rest = n % unit;
    if 2 * rest > unit || (2 * rest == unit && (sticky || quotient % 2 == 1)) {
        quotient + 1
    } else {
        quotient
    }
}

/// How far apart two integers are.
pub open spec fn apart(a: int, b: int) -> int {
    if a >= b {
        a - b
    } else {
        b - a
    }
}

/// An IEEE 754 binary64 number, held as its 64 bits: from the top one sign
/// bit, eleven bits of biased exponent and fifty-two bits of fraction.
#[derive(Clone, Copy, Debug, PartialEq, Eq)]
pub struct Binary64 {
    pub bits: u64,
}

impl Binary64 {
    /// Whether the sign bit is set.
    pub open spec fn sign(self) -> bool {
        self.bits >= 0x8000_0000_0000_0000
    }

    /// The eleven exponent bits, as a number.
    pub open spec fn biased_exponent(self) -> int {
        (self.bits as int / 0x10_0000_0000_0000) % 0x800
    }

    /// The fifty-two fraction bits, as a number.
    pub open spec fn fraction(self) -> int {
        self.bits as int % 0x10_0000_0000_0000
    }

    /// Not a number: all exponent bits set and a fraction that is not zero.
    pub open spec fn is_nan(self) -> bool {
        self.biased_exponent() == 0x7ff && self.fraction() != 0
    }

    /// Plus or minus infinity.
    pub open spec fn is_infinite(self) -> bool {
        self.biased_exponent() == 0x7ff && self.fraction() == 0
    }

    /// The integer `m` of the finite magnitude `m * 2^e`: the fraction,
    /// with the implicit leading one unless the number is subnormal.
    pub open spec fn significand(self) -> int {
        if self.biased_exponent() == 0 {
            self.fraction()
        } else {
            0x10_0000_0000_0000 + self.fraction()
        }
    }

    /// The integer `e` of the finite magnitude `m * 2^e`.
    pub open spec fn exponent(self) -> int {
        if self.biased_exponent() == 0 {
            -1074
        } else {
            self.biased_exponent() - 1075
        }
    }

    /// Whether the number is less than zero: the sign is set, and the
    /// number is neither a zero nor a NaN.
    pub open spec fn spec_is_negative(self) -> bool {
        self.sign() && !self.is_nan() && self.significand() != 0
    }

    /// For a finite number of magnitude `m * 2^e`, the integer `p` of its
    /// exact product with 10^8, `p * 2^e`.
    pub open spec fn exact_product(self) -> int {
        self.significand() * SATOSHI_PER_BITCOIN
    }

    /// The significand of the binary64 product of the magnitude and 10^8:
    /// the exact product, rounded to fifty-three bits, ties to even. That
    /// no number lies nearer to the exact product is
    /// `lemma_product_is_nearest`.
    pub open spec fn product_significand(self) -> int {
        round_to_nearest(self.exact_product(), excess_bits(self.exact_product()), false)
    }

    /// The exponent that goes with `product_significand`.
    pub open spec fn product_exponent(self) -> int {
        self.exponent() + excess_bits(self.exact_product())
    }

    /// The magnitude in bitcoin as a count of satoshi: the binary64
    /// product of the magnitude and 10^8, rounded to the nearest integer, a
    /// half rounding up. A product beyond the binary64 range stands here
    /// with its finite value, and so does infinity, as 2^1024: either is
    /// more than `u64::MAX`.
    pub open spec fn magnitude_in_satoshi(self) -> int {
        if self.product_exponent() >= 0 {
            self.product_significand() * pow2(self.product_exponent() as nat)
        } else {
            round_half_up(self.product_significand(), pow2((-self.product_exponent()) as nat) as int)
        }
    }

    /// The number as a bitcoin amount in satoshi: what multiplying by 10^8
    /// and rounding to the nearest integer give in binary64 arithmetic. It
    /// is no `u64`: an amount may come to more satoshi than any capacity
    /// counts. A NaN and every number with the sign set count as nothing.
    pub open spec fn in_satoshi(self) -> int {
        if self.is_nan() || self.sign() {
            0
        } else {
            self.magnitude_in_satoshi()
        }
    }

    /// A capacity in satoshi as a bitcoin amount: what converting the
    /// capacity to binary64 and dividing by 10^8 give in binary64
    /// arithmetic. The capacity is rounded to fifty-three bits, ties to
    /// even, and so is its quotient by 10^8, which is taken with eighty-one
    /// bits in the dividend. That this is the nearest binary64 number to
    /// the quotient is `lemma_from_satoshi_is_nearest`.
    pub open spec fn spec_from_satoshi(capacity: u64) -> Binary64 {
        if capacity == 0 {
            Binary64 { bits: 0 }
        } else {
            let lift = excess_bits(capacity as int);
            let significand = round_to_nearest(capacity as int, lift, false);
            let scale = scale_bits(significand);
            let dividend = significand * pow2(scale);
            let quotient = dividend / (SATOSHI_PER_BITCOIN as int);
            let inexact = dividend % (SATOSHI_PER_BITCOIN as int) != 0;
            let drop = excess_bits(quotient);
            let rounded = round_to_nearest(quotient, drop, inexact);
            Binary64 {
                bits: ((1075 + lift + drop - scale) * 0x10_0000_0000_0000 + (rounded
                    - 0x10_0000_0000_0000)) as u64,
            }
        }
    }

    /// Whether the number is finite: neither an infinity nor a NaN.
    pub open spec fn is_finite(self) -> bool {
        self.biased_exponent() != 0x7ff
    }

    /// The magnitude `m * 2^e` of a finite number in units of 2^-1074, the
    /// least binary64 step: an integer.
    pub open spec fn scaled_magnitude(self) -> int {
        self.significand() * pow2((self.exponent() + 1074) as nat)
    }

    /// A capacity as a binary64 number: the capacity rounded to fifty-three
    /// bits, ties to even. It is an integer.
    pub open spec fn rounded_capacity(capacity: u64) -> int {
        round_to_nearest(capacity as int, excess_bits(capacity as int), false) * pow2(
            excess_bits(capacity as int),
        )
    }

    /// How far the magnitude of a finite number lies from `satoshi / 10^8`
    /// bitcoin, in units of 2^-1074 / 10^8.
    pub open spec fn distance_from(self, satoshi: int) -> int {
        apart(self.scaled_magnitude() * SATOSHI_PER_BITCOIN, satoshi * pow2(1074))
    }

    /// The satoshi count of an amount is the nearest integer to the
    /// binary64 product of the amount and 10^8: the product itself where
    /// that is an integer, and else an integer that the product lies no
    /// more than a half below and less than a half above.
    pub proof fn lemma_in_satoshi_is_nearest_integer(self)
        requires
            !self.is_nan(),
            !self.sign(),
        ensures
            self.product_exponent() >= 0 ==> self.in_satoshi() == self.product_significand() * pow2(
                self.product_exponent() as nat,
            ),
            self.product_exponent() < 0 ==> (2 * self.in_satoshi() - 1) * pow2(
                (-self.product_exponent()) as nat,
            ) <= 2 * self.product_significand() < (2 * self.in_satoshi() + 1) * pow2(
                (-self.product_exponent()) as nat,
            ),
    {
        if self.product_exponent() < 0 {
            let exact = self.exact_product();
            lemma_excess_bits(exact);
            lemma_pow2_pos(excess_bits(exact));
            lemma_pow2_pos((-self.product_exponent()) as nat);
            assert(exact / (pow2(excess_bits(exact)) as int) >= 0) by (nonlinear_arith)
                requires
                    exact >= 0,
                    pow2(excess_bits(exact)) > 0,
            ;
            lemma_round_half_up(self.product_significand(), pow2((-self.product_exponent()) as nat) as int);
        }
    }

    /// A number that is at least 2^52, infinity included, comes to more
    /// satoshi than `u64::MAX`: its exponent is not negative, so it is no
    /// less than 2^52 * 10^8 satoshi, rounding apart.
    pub proof fn lemma_beyond_every_capacity(self)
        requires
            !self.is_nan(),
            !self.sign(),
            self.exponent() >= 0,
        ensures
            self.in_satoshi() > u64::MAX,
    {
        let exact = self.exact_product();
        let excess = excess_bits(exact);
        let unit = pow2(excess) as int;
        let scale = pow2(self.exponent() as nat) as int;
        let rounded = self.product_significand();
        lemma2_to64();
        lemma2_to64_rest();
        lemma_pow2_adds(64, 17);
        lemma_excess_bits_bound(exact, 28);
        lemma_pow2_pos(self.exponent() as nat);
        lemma_pow2_pos(excess);
        lemma_pow2_adds(self.exponent() as nat, excess);
        if excess < 28 {
            lemma_pow2_strictly_increases(excess, 28);
        }
        assert((exact / unit) * unit > exact - unit) by (nonlinear_arith)
            requires
                unit >= 1,
                exact >= 0,
        ;
        assert(rounded * (scale * unit) >= (exact / unit) * unit) by (nonlinear_arith)
            requires
                rounded >= exact / unit >= 0,
                scale >= 1,
                unit >= 1,
        ;
    }

    /// The binary64 product of a finite number's magnitude and 10^8 is
    /// the nearest number of fifty-three significant bits to the exact
    /// product: no finite number lies nearer to the exact product, and
    /// where another one lies as near, the product is the one of the two
    /// with the even significand. Magnitudes are in units of 2^-1074.
    pub proof fn lemma_product_is_nearest(self, other: Binary64)
        requires
            self.is_finite(),
            other.is_finite(),
        ensures
            ({
                let product = self.product_significand() * pow2((self.product_exponent() + 1074) as nat);
                let exact = self.exact_product() * pow2((self.exponent() + 1074) as nat);
                &&& apart(product, exact) <= apart(other.scaled_magnitude(), exact)
                &&& apart(product, exact) == apart(other.scaled_magnitude(), exact) && product
                    != other.scaled_magnitude() ==> self.product_significand() % 2 == 0
            }),
    {
        lemma_rounding_is_nearest(self.exact_product(), (self.exponent() + 1074) as nat, other);
    }

    /// A capacity as a binary64 number is the nearest number of fifty-three
    /// significant bits to the capacity: no finite number lies nearer to
    /// it, and where another one lies as near, the even significand
    /// decides.
    pub proof fn lemma_rounded_capacity_is_nearest(capacity: u64, other: Binary64)
        requires
            other.is_finite(),
        ensures
            ({
                let rounded = Self::rounded_capacity(capacity) * pow2(1074);
                let exact = capacity * pow2(1074);
                &&& apart(rounded, exact) <= apart(other.scaled_magnitude(), exact)
                &&& apart(rounded, exact) == apart(other.scaled_magnitude(), exact) && rounded
                    != other.scaled_magnitude() ==> round_to_nearest(
                    capacity as int,
                    excess_bits(capacity as int),
                    false,
                ) % 2 == 0
            }),
    {
        let lift = excess_bits(capacity as int);
        let significand = round_to_nearest(capacity as int, lift, false);
        lemma_rounding_is_nearest(capacity as int, 1074, other);
        lemma_pow2_adds(lift, 1074);
        assert((significand * pow2(lift)) * pow2(1074) == significand * (pow2(lift) * pow2(1074)))
            by (nonlinear_arith);
    }

    /// The amount that a capacity comes to is the binary64 number nearest
    /// to the capacity, as a binary64 number, over 10^8: no finite number
    /// that is not negative lies nearer to that quotient, and where
    /// another one lies as near, the amount is the one of the two with the
    /// even significand.
    pub proof fn lemma_from_satoshi_is_nearest(capacity: u64, other: Binary64)
        requires
            other.is_finite(),
            !other.sign(),
        ensures
            ({
                let amount = Self::spec_from_satoshi(capacity);
                let exact = Self::rounded_capacity(capacity);
                &&& amount.is_finite()
                &&& !amount.sign()
                &&& amount.distance_from(exact) <= other.distance_from(exact)
                &&& amount.distance_from(exact) == other.distance_from(exact) && amount.scaled_magnitude()
                    != other.scaled_magnitude() ==> amount.significand() % 2 == 0
            }),
    {
        let amount = Self::spec_from_satoshi(capacity);
        let exact = Self::rounded_capacity(capacity);
        let g = SATOSHI_PER_BITCOIN as int;
        lemma2_to64();
        lemma2_to64_rest();
        lemma_pow2_pos(1074);
        lemma_pow2_pos((other.exponent() + 1074) as nat);
        if capacity == 0 {
            assert(excess_bits(0) == 0);
            assert(amount.scaled_magnitude() == 0) by (nonlinear_arith)
                requires
                    amount.scaled_magnitude() == 0 * pow2(0),
            ;
            assert(exact * pow2(1074) == 0) by (nonlinear_arith)
                requires
                    exact == 0 * pow2(0),
            ;
            assert(other.scaled_magnitude() * g == 0 ==> other.scaled_magnitude() == 0) by (nonlinear_arith)
                requires
                    g == 100_000_000,
            ;
        } else {
            // The capacity as a binary64 number: `significand * 2^lift`.
            let lift = excess_bits(capacity as int);
            let significand = round_to_nearest(capacity as int, lift, false);
            lemma_excess_bits(capacity as int);
            lemma_excess_bits_bound(capacity as int, 11);
            lemma_pow2_pos(lift);
            if lift == 0 {
                assert(capacity as int / (pow2(lift) as int) == capacity && capacity as int % (pow2(
                    lift,
                ) as int) == 0) by (nonlinear_arith)
                    requires
                        pow2(lift) == 1,
                ;
            }
            assert(1 <= significand <= 0x20_0000_0000_0000);
            // The dividend of eighty-one bits and its quotient by 10^8.
            let scale = scale_bits(significand);
            lemma_scale_bits(significand);
            let dividend = significand * pow2(scale);
            let quotient = dividend / g;
            let left = dividend % g;
            lemma_fundamental_div_mod(dividend, g);
            assert(0x20_0000_0000_0000 <= quotient < 0x80_0000_0000_0000);
            // The quotient rounded to fifty-three bits.
            let drop = excess_bits(quotient);
            lemma_excess_bits(quotient);
            lemma_excess_bits_bound(quotient, 2);
            assert(1 <= drop <= 2);
            let unit = pow2(drop) as int;
            assert(unit == 2 || unit == 4);
            let q = quotient / unit;
            let rest = quotient % unit;
            lemma_fundamental_div_mod(quotient, unit);
            let rounded = round_to_nearest(quotient, drop, left != 0);
            let biased = 1075 + lift + drop - scale;
            lemma_assembled(biased, rounded);
            // In units of 2^-1074: one step of the amount, and the part of
            // the exact quotient beyond `q` steps, times 10^8.
            let low = (1074 + lift - scale) as nat;
            let fine = pow2(low) as int;
            let step = pow2((biased - 1) as nat) as int;
            lemma_pow2_pos(low);
            lemma_pow2_adds(drop, low);
            lemma_pow2_adds(scale, low);
            lemma_pow2_adds(lift, 1074);
            let part = (rest * g + left) * fine;
            let goal = exact * pow2(1074);
            assert(goal == dividend * fine) by (nonlinear_arith)
                requires
                    goal == (significand * pow2(lift)) * pow2(1074),
                    dividend == significand * pow2(scale),
                    pow2(scale) * fine == pow2(lift) * pow2(1074),
            ;
            assert(goal == q * g * step + part) by (nonlinear_arith)
                requires
                    goal == dividend * fine,
                    dividend == g * quotient + left,
                    quotient == unit * q + rest,
                    step == unit * fine,
                    part == (rest * g + left) * fine,
            ;
            assert(0 <= part < g * step && (2 * (rest * g + left) <= g * unit ==> 2 * part <= g * step) && (2
                * (rest * g + left) >= g * unit ==> 2 * part >= g * step) && (2 * part == g * step ==> 2 * (
            rest * g + left) == g * unit)) by (nonlinear_arith)
                requires
                    part == (rest * g + left) * fine,
                    step == unit * fine,
                    fine > 0,
                    0 <= rest * g + left < g * unit,
            ;
            lemma_no_number_between(other, q, (biased - 1) as nat);
            lemma_nearer_neighbour(q, step, part, goal, g, rounded, other.scaled_magnitude());
        }
    }

    /// The number with the given bit pattern.
    pub fn from_bits(bits: u64) -> (number: Self)
        ensures
            number.bits == bits,
    {
        Binary64 { bits }
    }

    /// Decides whether the number is less than zero.
    #[verifier::when_used_as_spec(spec_is_negative)]
    pub fn is_negative(self) -> (negative: bool)
        ensures
            negative == self.spec_is_negative(),
    {
        let biased: u64 = (self.bits / 0x10_0000_0000_0000) % 0x800;
        let fraction: u64 = self.bits % 0x10_0000_0000_0000;
        let nan = biased == 0x7ff && fraction != 0;
        let zero = biased == 0 && fraction == 0;
        self.bits >= 0x8000_0000_0000_0000 && !nan && !zero
    }

    /// Converts the number, a bitcoin amount, to satoshi; `None` where it
    /// comes to more than `u64::MAX` satoshi.
    pub fn to_satoshi(self) -> (satoshi: Option<u64>)
        ensures
            match satoshi {
                Some(satoshi) => satoshi == self.in_satoshi(),
                None => self.in_satoshi() > u64::MAX,
            },
    {
        let biased: u64 = (self.bits / 0x10_0000_0000_0000) % 0x800;
        let fraction: u64 = self.bits % 0x10_0000_0000_0000;
        if self.bits >= 0x8000_0000_0000_0000 || (biased == 0x7ff && fraction != 0) {
            return Some(0);
        }
        let significand: u128 = if biased == 0 {
            fraction as u128
        } else {
            0x10_0000_0000_0000u128 + fraction as u128
        };
        let product: u128 = significand * 100_000_000;
        let excess: u64 = count_excess_bits(product);
        let mantissa: u128 = round_off(product, excess, false);
        if biased >= 1075 {
            // Infinity is among these.
            proof {
                self.lemma_beyond_every_capacity();
            }
            return None;
        }
        let shift: u64 = if biased == 0 {
            1074
        } else {
            1075 - biased
        };
        if excess >= shift {
            let scale: u128 = power_of_two(excess - shift);
            proof {
                lemma2_to64();
                if excess - shift < 28 {
                    lemma_pow2_strictly_increases((excess - shift) as nat, 28);
                }
                assert(mantissa * scale <= 0x20_0000_0000_0000 * 0x1000_0000) by (nonlinear_arith)
                    requires
                        0 <= mantissa <= 0x20_0000_0000_0000,
                        0 <= scale <= 0x1000_0000,
                ;
            }
            let scaled: u128 = mantissa * scale;
            return if scaled > u64::MAX as u128 {
                None
            } else {
                Some(scaled as u64)
            };
        }
        let down: u64 = shift - excess;
        if down > 81 {
            // The significand is no more than 2^53: less than half of
            // 2^down.
            proof {
                let divisor = pow2(down as nat) as int;
                lemma2_to64();
                lemma_pow2_adds(64, 18);
                if down > 82 {
                    lemma_pow2_strictly_increases(82, down as nat);
                }
                assert((2 * mantissa + divisor) / (2 * divisor) == 0) by (nonlinear_arith)
                    requires
                        0 <= 2 * mantissa < divisor,
                ;
            }
            return Some(0);
        }
        let divisor: u128 = power_of_two(down);
        proof {
            lemma2_to64();
            lemma_pow2_adds(64, 17);
            lemma_pow2_pos(down as nat);
            if down < 81 {
                lemma_pow2_strictly_increases(down as nat, 81);
            }
        }
        let rounded: u128 = (2 * mantissa + divisor) / (2 * divisor);
        if rounded > u64::MAX as u128 {
            None
        } else {
            Some(rounded as u64)
        }
    }

    /// Converts a capacity in satoshi to a bitcoin amount.
    #[verifier::when_used_as_spec(spec_from_satoshi)]
    pub fn from_satoshi(capacity: u64) -> (amount: Self)
        ensures
            amount == Self::spec_from_satoshi(capacity),
    {
        if capacity == 0 {
            return Binary64 { bits: 0 };
        }
        let lift: u64 = count_excess_bits(capacity as u128);
        let significand: u128 = round_off(capacity as u128, lift, false);
        proof {
            lemma2_to64();
            lemma_pow2_pos(lift as nat);
            if lift == 0 {
                let unit = pow2(lift as nat) as int;
                assert(capacity as int / unit == capacity) by (nonlinear_arith)
                    requires
                        unit == 1,
                ;
            }
        }
        let mut dividend: u128 = significand;
        let mut scale: u64 = 0;
        while dividend < 0x1_0000_0000_0000_0000_0000
            invariant
                1 <= significand <= 0x20_0000_0000_0000,
                dividend == significand * pow2(scale as nat),
                scale_bits(significand as int) == scale + scale_bits(dividend as int),
                1 <= dividend < 0x2_0000_0000_0000_0000_0000,
                scale <= 80,
            decreases 0x2_0000_0000_0000_0000_0000 - dividend,
        {
            proof {
                lemma_scale_is_small(significand as int, scale as nat);
                lemma_pow2_unfold((scale + 1) as nat);
                assert(significand * (2 * pow2(scale as nat)) == 2 * (significand * pow2(scale as nat)))
                    by (nonlinear_arith);
            }
            dividend = dividend * 2;
            scale += 1;
        }
        let quotient: u128 = dividend / 100_000_000;
        let inexact = dividend % 100_000_000 != 0;
        let drop: u64 = count_excess_bits(quotient);
        let rounded: u128 = round_off(quotient, drop, inexact);
        let biased: u64 = 1075 + lift + drop - scale;
        Binary64 { bits: biased * 0x10_0000_0000_0000 + (rounded - 0x10_0000_0000_0000) as u64 }
    }
}

/// Two to the power `exponent`.
fn power_of_two(exponent: u64) -> (power: u128)
    requires
        exponent <= 81,
    ensures
        power == pow2(exponent as nat),
{
    let mut power: u128 = 1;
    let mut i: u64 = 0;
    proof {
        lemma2_to64();
    }
    while i < exponent
        invariant
            i <= exponent <= 81,
            power == pow2(i as nat),
        decreases exponent - i,
    {
        proof {
            lemma2_to64();
            lemma_pow2_adds(64, 16);
            lemma_pow2_unfold((i + 1) as nat);
            if i < 80 {
                lemma_pow2_strictly_increases(i as nat, 80);
            }
        }
        power = power * 2;
        i += 1;
    }
    power
}

/// Counts the bits that `n` has beyond fifty-three. Without them `n` has
/// no more than fifty-three bits, and exactly as many if any were counted.
fn count_excess_bits(n: u128) -> (excess: u64)
    requires
        n < 0x2_0000_0000_0000_0000_0000,
    ensures
        excess == excess_bits(n as int),
        excess <= 28,
        n as int / (pow2(excess as nat) as int) < 0x20_0000_0000_0000,
        excess > 0 ==> n as int / (pow2(excess as nat) as int) >= 0x10_0000_0000_0000,
{
    let mut kept: u128 = n;
    let mut excess: u64 = 0;
    proof {
        lemma2_to64();
    }
    while kept >= 0x20_0000_0000_0000
        invariant
            n < 0x2_0000_0000_0000_0000_0000,
            kept == n as int / (pow2(excess as nat) as int),
            excess_bits(n as int) == excess + excess_bits(kept as int),
            excess <= 28,
            excess > 0 ==> kept >= 0x10_0000_0000_0000,
        decreases kept,
    {
        proof {
            lemma_pow2_pos(excess as nat);
            lemma_remainder_lower(n as int, pow2(excess as nat) as int);
            lemma_excess_is_small(kept as int, excess as nat, n as int);
            lemma_pow2_unfold((excess + 1) as nat);
            lemma_div_denominator(n as int, pow2(excess as nat) as int, 2);
        }
        kept = kept / 2;
        excess += 1;
    }
    excess
}

/// Rounds `n / 2^bits` to the nearest integer, as `round_to_nearest` says.
fn round_off(n: u128, bits: u64, sticky: bool) -> (rounded: u128)
    requires
        n < 0x2_0000_0000_0000_0000_0000,
        bits <= 28,
    ensures
        rounded == round_to_nearest(n as int, bits as nat, sticky),
        n as int / (pow2(bits as nat) as int) <= rounded <= n as int / (pow2(bits as nat) as int) + 1,
{
    let unit: u128 = power_of_two(bits);
    proof {
        lemma2_to64();
        lemma_pow2_pos(bits as nat);
        if bits < 28 {
            lemma_pow2_strictly_increases(bits as nat, 28);
        }
    }
    let quotient: u128 = n / unit;
    let rest: u128 = n % unit;
    if 2 * rest > unit || (2 * rest == unit && (sticky || quotient % 2 == 1)) {
        quotient + 1
    } else {
        quotient
    }
}

/// An integer of at least fifty-four bits that, shifted up by `excess`
/// bits, stays below 2^81 has been shifted by fewer than twenty-eight.
proof fn lemma_excess_is_small(kept: int, excess: nat, limit: int)
    requires
        kept >= 0x20_0000_0000_0000,
        kept * pow2(excess) <= limit,
        limit < 0x2_0000_0000_0000_0000_0000,
    ensures
        excess < 28,
{
    if excess >= 28 {
        lemma2_to64();
        if excess > 28 {
            lemma_pow2_strictly_increases(28, excess);
        }
        assert(kept * pow2(excess) >= 0x20_0000_0000_0000 * 0x1000_0000) by (nonlinear_arith)
            requires
                kept >= 0x20_0000_0000_0000,
                pow2(excess) >= 0x1000_0000,
        ;
    }
}

/// A positive integer that, shifted up by `scale` bits, stays below 2^80
/// has been shifted by fewer than eighty.
proof fn lemma_scale_is_small(n: int, scale: nat)
    requires
        n >= 1,
        n * pow2(scale) < 0x1_0000_0000_0000_0000_0000,
    ensures
        scale < 80,
{
    if scale >= 80 {
        lemma2_to64();
        lemma_pow2_adds(64, 16);
        if scale > 80 {
            lemma_pow2_strictly_increases(80, scale);
        }
        assert(n * pow2(scale) >= pow2(scale)) by (nonlinear_arith)
            requires
                n >= 1,
                pow2(scale) >= 0,
        ;
    }
}

/// Rounding an integer to fifty-three bits gives the nearest number of
/// that many bits: with the integer in units of `2^low` times the least
/// binary64 step, no finite number lies nearer to it than what it rounds
/// to, and where another one lies as near, what it rounds to has the even
/// significand.
proof fn lemma_rounding_is_nearest(n: int, low: nat, other: Binary64)
    requires
        0 <= n,
        other.is_finite(),
    ensures
        ({
            let significand = round_to_nearest(n, excess_bits(n), false);
            let rounded = significand * pow2(excess_bits(n) + low);
            let exact = n * pow2(low);
            &&& apart(rounded, exact) <= apart(other.scaled_magnitude(), exact)
            &&& apart(rounded, exact) == apart(other.scaled_magnitude(), exact) && rounded
                != other.scaled_magnitude() ==> significand % 2 == 0
        }),
{
    let excess = excess_bits(n);
    let unit = pow2(excess) as int;
    let fine = pow2(low) as int;
    let step = pow2(excess + low) as int;
    let significand = round_to_nearest(n, excess, false);
    lemma2_to64();
    lemma_excess_bits(n);
    lemma_pow2_pos(excess);
    lemma_pow2_pos(low);
    lemma_pow2_adds(excess, low);
    lemma_fundamental_div_mod(n, unit);
    if excess == 0 {
        assert(n / unit == n && n % unit == 0) by (nonlinear_arith)
            requires
                unit == 1,
        ;
    } else {
        let q = n / unit;
        let rest = n % unit;
        let part = rest * fine;
        let goal = n * fine;
        assert(goal == q * 1 * step + part && 0 <= part < 1 * step && (2 * rest <= unit ==> 2 * part <= 1
            * step) && (2 * rest >= unit ==> 2 * part >= 1 * step) && (2 * part == 1 * step ==> 2 * rest
            == unit)) by (nonlinear_arith)
            requires
                goal == n * fine,
                n == unit * q + rest,
                step == unit * fine,
                part == rest * fine,
                fine > 0,
                0 <= rest < unit,
        ;
        lemma_no_number_between(other, q, excess + low);
        lemma_nearer_neighbour(q, step, part, goal, 1, significand, other.scaled_magnitude());
        assert(significand * step * 1 == significand * step && other.scaled_magnitude() * 1
            == other.scaled_magnitude()) by (nonlinear_arith);
    }
}

/// Of two powers of two the lesser has the lesser exponent.
proof fn lemma_exponent_below(lesser: nat, greater: nat)
    requires
        pow2(lesser) < pow2(greater),
    ensures
        lesser < greater,
{
    if lesser > greater {
        lemma_pow2_strictly_increases(greater, lesser);
    }
}

/// Without its excess bits a number has no more than fifty-three bits, and
/// exactly as many if it had any excess bits.
proof fn lemma_excess_bits(n: int)
    requires
        0 <= n,
    ensures
        n / (pow2(excess_bits(n)) as int) < 0x20_0000_0000_0000,
        excess_bits(n) > 0 ==> n / (pow2(excess_bits(n)) as int) >= 0x10_0000_0000_0000,
    decreases n,
{
    lemma2_to64();
    if n >= 0x20_0000_0000_0000 {
        let rest = excess_bits(n / 2);
        lemma_excess_bits(n / 2);
        lemma_pow2_pos(rest);
        lemma_pow2_unfold(rest + 1);
        lemma_div_denominator(n, 2, pow2(rest) as int);
        if rest == 0 {
            assert((n / 2) / (pow2(rest) as int) == n / 2) by (nonlinear_arith)
                requires
                    pow2(rest) == 1,
            ;
        }
    } else {
        assert(n / (pow2(0) as int) == n) by (nonlinear_arith)
            requires
                pow2(0) == 1,
        ;
    }
}

/// A number of no more than `53 + spare` bits has no more than `spare`
/// excess bits.
proof fn lemma_excess_bits_bound(n: int, spare: nat)
    requires
        0 <= n < pow2(53 + spare),
    ensures
        excess_bits(n) <= spare,
    decreases n,
{
    lemma2_to64_rest();
    if n >= 0x20_0000_0000_0000 {
        if spare == 0 {
            assert(pow2(53 + spare) == pow2(53));
        } else {
            lemma_pow2_unfold(53 + spare);
            lemma_excess_bits_bound(n / 2, (spare - 1) as nat);
        }
    }
}

/// Shifted up by its scale bits, a positive number below 2^80 has
/// eighty-one bits.
proof fn lemma_scale_bits(n: int)
    requires
        1 <= n < 0x1_0000_0000_0000_0000_0000,
    ensures
        0x1_0000_0000_0000_0000_0000 <= n * pow2(scale_bits(n)) < 0x2_0000_0000_0000_0000_0000,
        1 <= scale_bits(n) <= 80,
    decreases 0x2_0000_0000_0000_0000_0000 - n,
{
    lemma2_to64();
    lemma_pow2_adds(64, 17);
    let more = scale_bits(2 * n);
    if 2 * n < 0x1_0000_0000_0000_0000_0000 {
        lemma_scale_bits(2 * n);
    } else {
        assert((2 * n) * pow2(more) == 2 * n) by (nonlinear_arith)
            requires
                pow2(more) == 1,
        ;
    }
    lemma_pow2_unfold(more + 1);
    assert(n * (2 * pow2(more)) == (2 * n) * pow2(more)) by (nonlinear_arith);
    assert(pow2(more + 1) <= n * pow2(more + 1)) by (nonlinear_arith)
        requires
            n >= 1,
            pow2(more + 1) >= 0,
    ;
    lemma_exponent_below(more + 1, 81);
}

/// The bits put together from a biased exponent and a significand of
/// fifty-three bits, or 2^53, are those of the finite number
/// `rounded * 2^(biased - 1075)`.
proof fn lemma_assembled(biased: int, rounded: int)
    requires
        1 <= biased <= 2045,
        0x10_0000_0000_0000 <= rounded <= 0x20_0000_0000_0000,
    ensures
        ({
            let number = Binary64 {
                bits: (biased * 0x10_0000_0000_0000 + (rounded - 0x10_0000_0000_0000)) as u64,
            };
            &&& number.is_finite()
            &&& !number.sign()
            &&& number.scaled_magnitude() == rounded * pow2((biased - 1) as nat)
            &&& number.significand() % 2 == rounded % 2
        }),
{
    let bits = biased * 0x10_0000_0000_0000 + (rounded - 0x10_0000_0000_0000);
    let number = Binary64 { bits: bits as u64 };
    assert(0 <= bits < 0x8000_0000_0000_0000);
    if rounded == 0x20_0000_0000_0000 {
        assert(bits == (biased + 1) * 0x10_0000_0000_0000);
        assert(number.biased_exponent() == biased + 1);
        assert(number.fraction() == 0);
        lemma_pow2_unfold(biased as nat);
        assert(0x10_0000_0000_0000 * (2 * pow2((biased - 1) as nat)) == 0x20_0000_0000_0000 * pow2(
            (biased - 1) as nat,
        )) by (nonlinear_arith);
    } else {
        assert(number.biased_exponent() == biased);
        assert(number.fraction() == rounded - 0x10_0000_0000_0000);
    }
}

/// No finite number lies strictly between two neighbours `q * 2^e` and
/// `(q + 1) * 2^e` whose `q` has fifty-three bits.
proof fn lemma_no_number_between(other: Binary64, q: int, step: nat)
    requires
        other.is_finite(),
        0x10_0000_0000_0000 <= q < 0x20_0000_0000_0000,
    ensures
        other.scaled_magnitude() <= q * pow2(step) || other.scaled_magnitude() >= (q + 1) * pow2(step),
{
    let m = other.significand();
    let own = (other.exponent() + 1074) as nat;
    let width = pow2(step) as int;
    lemma_pow2_pos(step);
    lemma_pow2_pos(own);
    if own >= step {
        let times = pow2((own - step) as nat) as int;
        lemma_pow2_adds((own - step) as nat, step);
        let count = m * times;
        assert(m * (times * width) == count * width) by (nonlinear_arith)
            requires
                count == m * times,
        ;
        if count <= q {
            assert(count * width <= q * width) by (nonlinear_arith)
                requires
                    count <= q,
                    width >= 0,
            ;
        } else {
            assert(count * width >= (q + 1) * width) by (nonlinear_arith)
                requires
                    count >= q + 1,
                    width >= 0,
            ;
        }
    } else {
        lemma_pow2_unfold(step);
        let half = pow2((step - 1) as nat) as int;
        if own < step - 1 {
            lemma_pow2_strictly_increases(own, (step - 1) as nat);
        }
        assert(m * pow2(own) <= q * (2 * half)) by (nonlinear_arith)
            requires
                0 <= m < 0x20_0000_0000_0000,
                0 <= pow2(own) <= half,
                0x10_0000_0000_0000 <= q,
        ;
    }
}

/// Of the numbers outside the gap between two neighbours `q * width` and
/// `(q + 1) * width`, none lies nearer to a goal inside the gap than the
/// neighbour on the goal's side of the middle.
proof fn lemma_nearer_neighbour(q: int, width: int, part: int, goal: int, g: int, chosen: int, other: int)
    requires
        g > 0,
        width > 0,
        0 <= part < g * width,
        goal == q * g * width + part,
        chosen == q || chosen == q + 1,
        chosen == q ==> 2 * part <= g * width,
        chosen == q + 1 ==> 2 * part >= g * width,
        other <= q * width || other >= (q + 1) * width,
    ensures
        apart(chosen * width * g, goal) <= apart(other * g, goal),
        apart(chosen * width * g, goal) == apart(other * g, goal) && other != chosen * width ==> 2 * part
            == g * width,
{
    let base = q * g * width;
    assert(q * width * g == base && (q + 1) * width * g == base + g * width) by (nonlinear_arith)
        requires
            base == q * g * width,
    ;
    if other <= q * width {
        assert(other * g <= q * width * g && (other != q * width ==> other * g < q * width * g))
            by (nonlinear_arith)
            requires
                other <= q * width,
                g > 0,
        ;
    } else {
        assert(other * g >= (q + 1) * width * g && (other != (q + 1) * width ==> other * g > (q + 1)
            * width * g)) by (nonlinear_arith)
            requires
                other >= (q + 1) * width,
                g > 0,
        ;
    }
}

} // verus!
