//! Double-precision numbers, computed with integers alone.

use vstd::prelude::*;
use vstd::arithmetic::power2::pow2;
use crate::patterns;
use crate::root;
use crate::rounding;
use crate::single::{Single, SINGLE_INFINITY};

verus! {

/// The bit that marks a negative value.
pub const DOUBLE_SIGN: u64 = 0x8000_0000_0000_0000;

/// The pattern of infinity.
pub const DOUBLE_INFINITY: u64 = 0x7FF0_0000_0000_0000;

/// A double-precision number of the IEEE 754 standard, by its bits.
///
/// `==` compares the bits; `equals` compares the values.
#[derive(Clone, Copy, Debug, PartialEq, Eq, Structural)]
pub struct Double {
    pub bits: u64,
}

impl Double {
    pub(crate) proof fn lemma_format()
        ensures
            patterns::is_format(52, 2047, 1074),
            patterns::infinity(52, 2047) == DOUBLE_INFINITY,
            patterns::infinity(52, 2047) < DOUBLE_SIGN,
    {
        vstd::arithmetic::power2::lemma2_to64();
        vstd::arithmetic::power2::lemma2_to64_rest();
    }

    /// Whether the sign bit is set.
    pub open spec fn negative(self) -> bool {
        self.bits >= DOUBLE_SIGN
    }

    /// The bits without the sign.
    pub open spec fn pattern(self) -> u64 {
        if self.bits >= DOUBLE_SIGN {
            (self.bits - DOUBLE_SIGN) as u64
        } else {
            self.bits as u64
        }
    }

    pub open spec fn nan(self) -> bool {
        self.pattern() > DOUBLE_INFINITY
    }

    pub open spec fn infinite(self) -> bool {
        self.pattern() == DOUBLE_INFINITY
    }

    /// The magnitude in units of the smallest positive value.
    #[verifier::opaque]
    pub open spec fn magnitude(self) -> int {
        patterns::magnitude(self.pattern(), 52)
    }

    /// The value in units of the smallest positive value; infinity counts as the first value that
    /// is out of range.
    pub open spec fn value(self) -> int {
        if self.negative() {
            -self.magnitude()
        } else {
            self.magnitude()
        }
    }

    /// The value with the given sign and pattern.
    pub open spec fn signed(negative: bool, pattern: int) -> Double {
        Double {
            bits: if negative {
                (pattern + DOUBLE_SIGN) as u64
            } else {
                pattern as u64
            },
        }
    }

    /// The value nearest to `n / d`, which is not negative, in units of the smallest positive
    /// value.
    #[verifier::opaque]
    pub open spec fn nearest(negative: bool, n: int, d: int) -> Double {
        Double::signed(negative, patterns::rounded(n, d, 52, 2047))
    }

    pub open spec fn not_a_number() -> Double {
        Double { bits: 0x7FF8_0000_0000_0000 }
    }

    /// The sum, rounded once. Opposite values add up to positive zero.
    #[verifier::opaque]
    pub open spec fn spec_add(self, rhs: Double) -> Double {
        if self.nan() || rhs.nan() || (self.infinite() && rhs.infinite() && self.negative()
            != rhs.negative()) {
            Double::not_a_number()
        } else if self.infinite() {
            self
        } else if rhs.infinite() {
            rhs
        } else {
            let exact = self.value() + rhs.value();
            if exact > 0 {
                Double::nearest(false, exact, 1)
            } else if exact < 0 {
                Double::nearest(true, -exact, 1)
            } else {
                Double::signed(self.negative() && rhs.negative(), 0)
            }
        }
    }

    /// The difference, rounded once.
    pub open spec fn spec_sub(self, rhs: Double) -> Double {
        self.spec_add(rhs.negated())
    }

    /// The product, rounded once.
    #[verifier::opaque]
    pub open spec fn spec_mul(self, rhs: Double) -> Double {
        let negative = self.negative() != rhs.negative();
        if self.nan() || rhs.nan() || (self.infinite() && rhs.pattern() == 0) || (rhs.infinite()
            && self.pattern() == 0) {
            Double::not_a_number()
        } else if self.infinite() || rhs.infinite() {
            Double::signed(negative, DOUBLE_INFINITY as int)
        } else {
            Double::nearest(negative, self.magnitude() * rhs.magnitude(), pow2(1074) as int)
        }
    }

    /// The quotient, rounded once.
    #[verifier::opaque]
    pub open spec fn spec_div(self, rhs: Double) -> Double {
        let negative = self.negative() != rhs.negative();
        if self.nan() || rhs.nan() || (self.infinite() && rhs.infinite()) || (self.pattern() == 0
            && rhs.pattern() == 0) {
            Double::not_a_number()
        } else if self.infinite() || rhs.pattern() == 0 {
            Double::signed(negative, DOUBLE_INFINITY as int)
        } else if rhs.infinite() {
            Double::signed(negative, 0)
        } else {
            Double::nearest(negative, self.magnitude() * pow2(1074), rhs.magnitude())
        }
    }

    /// What `/` means in contracts.
    pub open spec fn spec_euclidean_or_real_div(self, rhs: Double) -> Double {
        self.spec_div(rhs)
    }

    /// The square root, rounded once.
    #[verifier::opaque]
    pub open spec fn spec_sqrt(self) -> Double {
        if self.pattern() == 0 {
            self
        } else if self.nan() || self.negative() {
            Double::not_a_number()
        } else if self.infinite() {
            self
        } else {
            Double::signed(
                false,
                root::nearest_root(
                    self.magnitude() * pow2(1074),
                    52,
                    patterns::infinity(52, 2047),
                ),
            )
        }
    }

    /// Whether the value is less; never of a value that is no number.
    pub open spec fn spec_less(self, rhs: Double) -> bool {
        !self.nan() && !rhs.nan() && self.value() < rhs.value()
    }

    /// Whether the value is less or equal; never of a value that is no number.
    pub open spec fn spec_at_most(self, rhs: Double) -> bool {
        !self.nan() && !rhs.nan() && self.value() <= rhs.value()
    }

    /// The place of the value in the total order: negative values first, zero after negative
    /// zero, values that are no number at both ends.
    pub open spec fn rank(self) -> int {
        if self.negative() {
            -1 - self.pattern() as int
        } else {
            self.pattern() as int
        }
    }

    /// The value `n / d` of two integers.
    pub open spec fn spec_ratio(n: u64, d: u64) -> Double {
        Double::nearest(false, n * pow2(1074), d as int)
    }

    /// The values of fractions are ordered as the fractions are, and they are no less than zero.
    pub proof fn law_ratios_are_ordered(n1: u64, d1: u64, n2: u64, d2: u64)
        requires
            d1 > 0,
            d2 > 0,
            n1 * d2 <= n2 * d1,
        ensures
            Double::spec_ratio(n1, d1).spec_at_most(Double::spec_ratio(n2, d2)),
            !Double::spec_ratio(n1, d1).negative(),
    {
        Self::lemma_format();
        reveal(Double::nearest);
        reveal(Double::magnitude);
        let unit = pow2(1074) as int;
        let inf = patterns::infinity(52, 2047);
        assert(n1 * unit * d2 <= n2 * unit * d1) by (nonlinear_arith)
            requires
                n1 * d2 <= n2 * d1,
                unit >= 0,
        ;
        rounding::lemma_nearest_exists(n1 * unit, d1 as int, 52, inf);
        rounding::lemma_nearest_exists(n2 * unit, d2 as int, 52, inf);
        rounding::law_rounding_keeps_order(
            n1 * unit,
            d1 as int,
            n2 * unit,
            d2 as int,
            52,
            inf,
        );
        let k1 = rounding::nearest(n1 * unit, d1 as int, 52, inf);
        let k2 = rounding::nearest(n2 * unit, d2 as int, 52, inf);
        if k1 < k2 {
            rounding::lemma_mag_increases(k1, k2, 52);
        }
    }

    /// What is clamped between two values in order, and is a number, lies between them.
    pub proof fn law_clamped_lies_between(self, low: Double, high: Double)
        requires
            !self.nan(),
            low.spec_at_most(high),
        ensures
            low.spec_at_most(self.clamp(low, high)),
            self.clamp(low, high).spec_at_most(high),
    {
    }

    /// The order of values is the order of their patterns with their signs.
    pub(crate) proof fn lemma_order(self, rhs: Double)
        ensures
            self.magnitude() >= 0,
            self.magnitude() == 0 <==> self.pattern() == 0,
            self.magnitude() < rhs.magnitude() <==> self.pattern() < rhs.pattern(),
            self.magnitude() == rhs.magnitude() <==> self.pattern() == rhs.pattern(),
            rhs.magnitude() >= 0,
            rhs.magnitude() == 0 <==> rhs.pattern() == 0,
    {
        reveal(Double::magnitude);
        let a = self.pattern() as int;
        let b = rhs.pattern() as int;
        rounding::lemma_mag_nonnegative(a, 52);
        rounding::lemma_mag_nonnegative(b, 52);
        if a < b {
            rounding::lemma_mag_increases(a, b, 52);
        } else if b < a {
            rounding::lemma_mag_increases(b, a, 52);
        }
    }

    #[verifier::allow_in_spec]
    pub fn from_bits(bits: u64) -> Double
        returns
            (Double { bits }),
    {
        Double { bits }
    }

    #[verifier::allow_in_spec]
    pub fn to_bits(self) -> u64
        returns
            self.bits,
    {
        self.bits
    }

    fn split_sign(self) -> (r: (bool, u64))
        ensures
            r.0 == self.negative(),
            r.1 == self.pattern(),
    {
        if self.bits >= DOUBLE_SIGN {
            (true, (self.bits - DOUBLE_SIGN) as u64)
        } else {
            (false, self.bits as u64)
        }
    }

    pub(crate) fn with_sign(negative: bool, pattern: u64) -> (r: Double)
        requires
            pattern <= DOUBLE_INFINITY,
        ensures
            r == Double::signed(negative, pattern as int),
    {
        if negative {
            Double { bits: pattern as u64 + DOUBLE_SIGN }
        } else {
            Double { bits: pattern as u64 }
        }
    }

    #[verifier::allow_in_spec]
    pub fn is_nan(self) -> bool
        returns
            self.nan(),
    {
        self.split_sign().1 > DOUBLE_INFINITY
    }

    /// Whether the sign bit is set.
    #[verifier::allow_in_spec]
    pub fn is_negative(self) -> bool
        returns
            self.negative(),
    {
        self.bits >= DOUBLE_SIGN
    }

    /// Whether the value is neither infinite nor no number.
    #[verifier::allow_in_spec]
    pub fn is_finite(self) -> bool
        returns
            self.pattern() < DOUBLE_INFINITY,
    {
        self.split_sign().1 < DOUBLE_INFINITY
    }

    /// The magnitude as a value.
    #[verifier::allow_in_spec]
    pub fn abs(self) -> Double
        returns
            Double::signed(false, self.pattern() as int),
    {
        Double { bits: self.split_sign().1 as u64 }
    }

    /// The value with the opposite sign.
    #[verifier::allow_in_spec]
    pub fn negated(self) -> Double
        returns
            Double::signed(!self.negative(), self.pattern() as int),
    {
        if self.bits >= DOUBLE_SIGN {
            Double { bits: self.bits - DOUBLE_SIGN }
        } else {
            Double { bits: self.bits + DOUBLE_SIGN }
        }
    }

    /// The value `n / d` of two integers, rounded once.
    #[verifier::when_used_as_spec(spec_ratio)]
    pub fn ratio(n: u64, d: u64) -> (r: Double)
        requires
            d > 0,
        ensures
            r == Double::spec_ratio(n, d),
    {
        proof {
            Self::lemma_format();
            reveal(Double::nearest);
        }
        Double::with_sign(false, patterns::fraction(n, d, 52, 2047, 1074))
    }

    /// An integer, rounded once.
    #[verifier::allow_in_spec]
    pub fn integer(n: u64) -> Double
        returns
            Double::spec_ratio(n, 1),
    {
        Double::ratio(n, 1)
    }

    #[verifier::when_used_as_spec(spec_sqrt)]
    pub fn sqrt(self) -> (r: Double)
        ensures
            r == self.spec_sqrt(),
    {
        proof {
            Self::lemma_format();
            reveal(Double::spec_sqrt);
            reveal(Double::magnitude);
        }
        let (negative, pattern) = self.split_sign();
        if pattern == 0 {
            self
        } else if pattern > DOUBLE_INFINITY || negative {
            Double { bits: 0x7FF8_0000_0000_0000 }
        } else if pattern == DOUBLE_INFINITY {
            self
        } else {
            Double::with_sign(false, root::root(pattern, 52, 2047, 1074))
        }
    }

    #[verifier::when_used_as_spec(spec_less)]
    pub fn less(self, rhs: Double) -> (r: bool)
        ensures
            r == self.spec_less(rhs),
    {
        proof {
            self.lemma_order(rhs);
        }
        let (a_negative, a) = self.split_sign();
        let (b_negative, b) = rhs.split_sign();
        if a > DOUBLE_INFINITY || b > DOUBLE_INFINITY {
            false
        } else if a_negative {
            if b_negative {
                b < a
            } else {
                a != 0 || b != 0
            }
        } else {
            !b_negative && a < b
        }
    }

    #[verifier::when_used_as_spec(spec_at_most)]
    pub fn at_most(self, rhs: Double) -> (r: bool)
        ensures
            r == self.spec_at_most(rhs),
    {
        proof {
            self.lemma_order(rhs);
        }
        let (a_negative, a) = self.split_sign();
        let (b_negative, b) = rhs.split_sign();
        if a > DOUBLE_INFINITY || b > DOUBLE_INFINITY {
            false
        } else if a_negative {
            if b_negative {
                b <= a
            } else {
                true
            }
        } else if b_negative {
            a == 0 && b == 0
        } else {
            a <= b
        }
    }

    /// Whether the values are equal: zero equals negative zero.
    #[verifier::allow_in_spec]
    pub fn equals(self, rhs: Double) -> bool
        returns
            self.spec_at_most(rhs) && rhs.spec_at_most(self),
    {
        self.at_most(rhs) && rhs.at_most(self)
    }

    /// The lesser of two values; the other one where one is no number.
    #[verifier::allow_in_spec]
    pub fn min(self, rhs: Double) -> Double
        returns
            (if self.nan() || rhs.spec_less(self) {
                rhs
            } else {
                self
            }),
    {
        if self.is_nan() || rhs.less(self) {
            rhs
        } else {
            self
        }
    }

    /// The greater of two values; the other one where one is no number.
    #[verifier::allow_in_spec]
    pub fn max(self, rhs: Double) -> Double
        returns
            (if self.nan() || self.spec_less(rhs) {
                rhs
            } else {
                self
            }),
    {
        if self.is_nan() || self.less(rhs) {
            rhs
        } else {
            self
        }
    }

    /// The value, or the bound that it passes.
    #[verifier::allow_in_spec]
    pub fn clamp(self, low: Double, high: Double) -> Double
        returns
            (if self.spec_less(low) {
                low
            } else if high.spec_less(self) {
                high
            } else {
                self
            }),
    {
        if self.less(low) {
            low
        } else if high.less(self) {
            high
        } else {
            self
        }
    }

    /// One with the sign of the value.
    #[verifier::allow_in_spec]
    pub fn signum(self) -> Double
        returns
            (if self.nan() {
                Double::not_a_number()
            } else {
                Double { bits: if self.negative() { 0xBFF0_0000_0000_0000 } else { 0x3FF0_0000_0000_0000 } }
            }),
    {
        if self.is_nan() {
            Double { bits: 0x7FF8_0000_0000_0000 }
        } else if self.bits >= DOUBLE_SIGN {
            Double { bits: 0xBFF0_0000_0000_0000 }
        } else {
            Double { bits: 0x3FF0_0000_0000_0000 }
        }
    }

    /// Whether the value comes before another one in the total order.
    #[verifier::allow_in_spec]
    pub fn precedes(self, rhs: Double) -> bool
        returns
            self.rank() < rhs.rank(),
    {
        let (a_negative, a) = self.split_sign();
        let (b_negative, b) = rhs.split_sign();
        if a_negative {
            !b_negative || b < a
        } else {
            !b_negative && a < b
        }
    }

    /// The integer below a value that is not negative: zero of a value that is negative or no
    /// number, and no more than the largest integer.
    pub open spec fn spec_floor(self) -> u64 {
        if self.nan() || self.negative() {
            0
        } else if self.infinite() {
            u64::MAX
        } else {
            let w = patterns::whole(self.magnitude(), 1074, false);
            if w <= u64::MAX {
                w as u64
            } else {
                u64::MAX
            }
        }
    }

    #[verifier::when_used_as_spec(spec_floor)]
    pub fn floor(self) -> (r: u64)
        ensures
            r == self.spec_floor(),
    {
        proof {
            Self::lemma_format();
            reveal(Double::magnitude);
            Self::lemma_whole(self, false);
        }
        let (negative, pattern) = self.split_sign();
        if negative || pattern > DOUBLE_INFINITY {
            0
        } else if pattern == DOUBLE_INFINITY {
            u64::MAX
        } else {
            patterns::to_whole(pattern, 52, 2047, 1074, false)
        }
    }

    proof fn lemma_whole(x: Double, half: bool)
        ensures
            patterns::whole(x.magnitude(), 1074, half) >= 0,
    {
        reveal(Double::magnitude);
        rounding::lemma_mag_nonnegative(x.pattern() as int, 52);
        vstd::arithmetic::power2::lemma_pow2_pos(1074);
        let p = pow2(1074) as int;
        vstd::arithmetic::div_mod::lemma_div_pos_is_pos(x.magnitude(), p);
        vstd::arithmetic::div_mod::lemma_div_pos_is_pos(2 * x.magnitude() + p, 2 * p);
    }

    /// The integer nearest to the magnitude, halves going up: zero of a value that is no number,
    /// and no more than the largest integer.
    pub open spec fn spec_round_magnitude(self) -> u64 {
        if self.nan() {
            0
        } else if self.infinite() {
            u64::MAX
        } else {
            let w = patterns::whole(self.magnitude(), 1074, true);
            if w <= u64::MAX {
                w as u64
            } else {
                u64::MAX
            }
        }
    }

    #[verifier::when_used_as_spec(spec_round_magnitude)]
    pub fn round_magnitude(self) -> (r: u64)
        ensures
            r == self.spec_round_magnitude(),
    {
        proof {
            Self::lemma_format();
            reveal(Double::magnitude);
            Self::lemma_whole(self, true);
        }
        let (_, pattern) = self.split_sign();
        if pattern > DOUBLE_INFINITY {
            0
        } else if pattern == DOUBLE_INFINITY {
            u64::MAX
        } else {
            patterns::to_whole(pattern, 52, 2047, 1074, true)
        }
    }

    fn sum(self, rhs: Double) -> (r: Double)
        ensures
            r == self.spec_add(rhs),
    {
        proof {
            Self::lemma_format();
            reveal(Double::spec_add);
            reveal(Double::magnitude);
            reveal(Double::nearest);
            self.lemma_order(rhs);
        }
        let (a_negative, a) = self.split_sign();
        let (b_negative, b) = rhs.split_sign();
        if a > DOUBLE_INFINITY || b > DOUBLE_INFINITY || (a == DOUBLE_INFINITY && b
            == DOUBLE_INFINITY && a_negative != b_negative) {
            Double { bits: 0x7FF8_0000_0000_0000 }
        } else if a == DOUBLE_INFINITY {
            self
        } else if b == DOUBLE_INFINITY {
            rhs
        } else if a_negative == b_negative {
            if a == 0 && b == 0 {
                Double::with_sign(a_negative, 0)
            } else {
                Double::with_sign(a_negative, patterns::sum(a, b, 52, 2047))
            }
        } else if b < a {
            Double::with_sign(a_negative, patterns::difference(a, b, 52, 2047))
        } else if a < b {
            Double::with_sign(b_negative, patterns::difference(b, a, 52, 2047))
        } else {
            Double::with_sign(false, 0)
        }
    }

    fn product(self, rhs: Double) -> (r: Double)
        ensures
            r == self.spec_mul(rhs),
    {
        proof {
            Self::lemma_format();
            reveal(Double::spec_mul);
            reveal(Double::magnitude);
            reveal(Double::nearest);
        }
        let (a_negative, a) = self.split_sign();
        let (b_negative, b) = rhs.split_sign();
        let negative: bool = a_negative != b_negative;
        if a > DOUBLE_INFINITY || b > DOUBLE_INFINITY || (a == DOUBLE_INFINITY && b == 0) || (b
            == DOUBLE_INFINITY && a == 0) {
            Double { bits: 0x7FF8_0000_0000_0000 }
        } else if a == DOUBLE_INFINITY || b == DOUBLE_INFINITY {
            Double::with_sign(negative, DOUBLE_INFINITY)
        } else {
            Double::with_sign(negative, patterns::product(a, b, 52, 2047, 1074))
        }
    }

    fn quotient(self, rhs: Double) -> (r: Double)
        ensures
            r == self.spec_div(rhs),
    {
        proof {
            Self::lemma_format();
            reveal(Double::spec_div);
            reveal(Double::magnitude);
            reveal(Double::nearest);
        }
        let (a_negative, a) = self.split_sign();
        let (b_negative, b) = rhs.split_sign();
        let negative: bool = a_negative != b_negative;
        if a > DOUBLE_INFINITY || b > DOUBLE_INFINITY || (a == DOUBLE_INFINITY && b
            == DOUBLE_INFINITY) || (a == 0 && b == 0) {
            Double { bits: 0x7FF8_0000_0000_0000 }
        } else if a == DOUBLE_INFINITY || b == 0 {
            Double::with_sign(negative, DOUBLE_INFINITY)
        } else if b == DOUBLE_INFINITY {
            Double::with_sign(negative, 0)
        } else {
            Double::with_sign(negative, patterns::ratio(a, b, 52, 2047, 1074))
        }
    }

    /// The square root of the sum of two squares.
    #[verifier::allow_in_spec]
    fn diagonal(self, rhs: Double) -> Double
        returns
            (self * self + rhs * rhs).spec_sqrt(),
    {
        (self * self + rhs * rhs).sqrt()
    }

    /// The length of the diagonal with the sides `self` and `rhs`, infinite where one of them is.
    /// Where a square would leave the range of doubles, the sides are first scaled by a power of
    /// two.
    pub open spec fn spec_hypot(self, rhs: Double) -> Double {
        let up = Double { bits: 0x6570_0000_0000_0000 };
        let down = Double { bits: 0x1A70_0000_0000_0000 };
        let largest = self.abs().max(rhs.abs());
        if self.infinite() || rhs.infinite() {
            Double { bits: DOUBLE_INFINITY }
        } else if (Double { bits: 0x5DF0_0000_0000_0000 }).less(largest) {
            ((self * down) * (self * down) + (rhs * down) * (rhs * down)).spec_sqrt() * up
        } else if largest.less(Double { bits: 0x21F0_0000_0000_0000 }) {
            ((self * up) * (self * up) + (rhs * up) * (rhs * up)).spec_sqrt() * down
        } else {
            (self * self + rhs * rhs).spec_sqrt()
        }
    }

    #[verifier::when_used_as_spec(spec_hypot)]
    pub fn hypot(self, rhs: Double) -> (r: Double)
        ensures
            r == self.spec_hypot(rhs),
    {
        let up = Double { bits: 0x6570_0000_0000_0000 };
        let down = Double { bits: 0x1A70_0000_0000_0000 };
        let largest = self.abs().max(rhs.abs());
        let (_, a) = self.split_sign();
        let (_, b) = rhs.split_sign();
        if a == DOUBLE_INFINITY || b == DOUBLE_INFINITY {
            Double { bits: DOUBLE_INFINITY }
        } else if (Double { bits: 0x5DF0_0000_0000_0000 }).less(largest) {
            (self * down).diagonal(rhs * down) * up
        } else if largest.less(Double { bits: 0x21F0_0000_0000_0000 }) {
            (self * up).diagonal(rhs * up) * down
        } else {
            self.diagonal(rhs)
        }
    }

    /// Radians as degrees: the value times the number nearest to `180 / pi`.
    #[verifier::allow_in_spec]
    pub fn to_degrees(self) -> Double
        returns
            self * (Double { bits: 0x404C_A5DC_1A63_C1F8 }),
    {
        self * Double { bits: 0x404C_A5DC_1A63_C1F8 }
    }

    /// Degrees as radians: the value times the number nearest to `pi / 180`.
    #[verifier::allow_in_spec]
    pub fn to_radians(self) -> Double
        returns
            self * (Double { bits: 0x3F91_DF46_A252_9D39 }),
    {
        self * Double { bits: 0x3F91_DF46_A252_9D39 }
    }

    /// The value in single precision, rounded once.
    pub open spec fn spec_to_single(self) -> Single {
        if self.nan() {
            Single::not_a_number()
        } else if self.infinite() {
            Single::signed(self.negative(), SINGLE_INFINITY as int)
        } else {
            Single::nearest(self.negative(), self.magnitude(), pow2(925) as int)
        }
    }

    #[verifier::when_used_as_spec(spec_to_single)]
    pub fn to_single(self) -> (r: Single)
        ensures
            r == self.spec_to_single(),
    {
        proof {
            Self::lemma_format();
            Single::lemma_format();
            reveal(Double::magnitude);
            reveal(Single::nearest);
        }
        let (negative, pattern) = self.split_sign();
        if pattern > DOUBLE_INFINITY {
            Single { bits: 0x7FC0_0000 }
        } else if pattern == DOUBLE_INFINITY {
            Single::with_sign(negative, SINGLE_INFINITY)
        } else {
            Single::with_sign(negative, patterns::narrowed(pattern, 52, 2047, 23, 255, 925))
        }
    }
}

impl core::ops::Add for Double {
    type Output = Double;

    fn add(self, rhs: Double) -> (r: Double) {
        self.sum(rhs)
    }
}

impl vstd::std_specs::ops::AddSpecImpl for Double {
    open spec fn obeys_add_spec() -> bool {
        true
    }

    open spec fn add_req(self, rhs: Double) -> bool {
        true
    }

    open spec fn add_spec(self, rhs: Double) -> Double {
        self.spec_add(rhs)
    }
}

impl core::ops::Sub for Double {
    type Output = Double;

    fn sub(self, rhs: Double) -> (r: Double) {
        self.sum(rhs.negated())
    }
}

impl vstd::std_specs::ops::SubSpecImpl for Double {
    open spec fn obeys_sub_spec() -> bool {
        true
    }

    open spec fn sub_req(self, rhs: Double) -> bool {
        true
    }

    open spec fn sub_spec(self, rhs: Double) -> Double {
        self.spec_sub(rhs)
    }
}

impl core::ops::Mul for Double {
    type Output = Double;

    fn mul(self, rhs: Double) -> (r: Double) {
        self.product(rhs)
    }
}

impl vstd::std_specs::ops::MulSpecImpl for Double {
    open spec fn obeys_mul_spec() -> bool {
        true
    }

    open spec fn mul_req(self, rhs: Double) -> bool {
        true
    }

    open spec fn mul_spec(self, rhs: Double) -> Double {
        self.spec_mul(rhs)
    }
}

impl core::ops::Div for Double {
    type Output = Double;

    fn div(self, rhs: Double) -> (r: Double) {
        self.quotient(rhs)
    }
}

impl vstd::std_specs::ops::DivSpecImpl for Double {
    open spec fn obeys_div_spec() -> bool {
        true
    }

    open spec fn div_req(self, rhs: Double) -> bool {
        true
    }

    open spec fn div_spec(self, rhs: Double) -> Double {
        self.spec_div(rhs)
    }
}

} // verus!
