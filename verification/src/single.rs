//! Single-precision numbers, computed with integers alone.

use vstd::prelude::*;
use vstd::arithmetic::power2::pow2;
use crate::patterns;
use crate::root;
use crate::rounding;
use crate::double::{Double, DOUBLE_INFINITY};

verus! {

/// The bit that marks a negative value.
pub const SINGLE_SIGN: u32 = 0x8000_0000;

/// The pattern of infinity.
pub const SINGLE_INFINITY: u64 = 0x7F80_0000;

/// A single-precision number of the IEEE 754 standard, by its bits.
///
/// `==` compares the bits; `equals` compares the values.
#[derive(Clone, Copy, Debug, PartialEq, Eq, Structural)]
pub struct Single {
    pub bits: u32,
}

impl Single {
    pub(crate) proof fn lemma_format()
        ensures
            patterns::is_format(23, 255, 149),
            patterns::infinity(23, 255) == SINGLE_INFINITY,
            patterns::infinity(23, 255) < SINGLE_SIGN,
    {
        vstd::arithmetic::power2::lemma2_to64();
        vstd::arithmetic::power2::lemma2_to64_rest();
    }

    /// Whether the sign bit is set.
    pub open spec fn negative(self) -> bool {
        self.bits >= SINGLE_SIGN
    }

    /// The bits without the sign.
    pub open spec fn pattern(self) -> u64 {
        if self.bits >= SINGLE_SIGN {
            (self.bits - SINGLE_SIGN) as u64
        } else {
            self.bits as u64
        }
    }

    pub open spec fn nan(self) -> bool {
        self.pattern() > SINGLE_INFINITY
    }

    pub open spec fn infinite(self) -> bool {
        self.pattern() == SINGLE_INFINITY
    }

    /// The magnitude in units of the smallest positive value.
    #[verifier::opaque]
    pub open spec fn magnitude(self) -> int {
        patterns::magnitude(self.pattern(), 23)
    }

    /// The value in units of the smallest positive value; infinity counts as the first value that
    /// is out of range.
    pub open spec fn value(self) -> int {
        if self.negative() {
            -self.magnitude()
        } else {
            self.magnitude()
        }
    }

    /// The value with the given sign and pattern.
    pub open spec fn signed(negative: bool, pattern: int) -> Single {
        Single {
            bits: if negative {
                (pattern + SINGLE_SIGN) as u32
            } else {
                pattern as u32
            },
        }
    }

    /// The value nearest to `n / d`, which is not negative, in units of the smallest positive
    /// value.
    #[verifier::opaque]
    pub open spec fn nearest(negative: bool, n: int, d: int) -> Single {
        Single::signed(negative, patterns::rounded(n, d, 23, 255))
    }

    pub open spec fn not_a_number() -> Single {
        Single { bits: 0x7FC0_0000 }
    }

    /// The sum, rounded once. Opposite values add up to positive zero.
    #[verifier::opaque]
    pub open spec fn spec_add(self, rhs: Single) -> Single {
        if self.nan() || rhs.nan() || (self.infinite() && rhs.infinite() && self.negative()
            != rhs.negative()) {
            Single::not_a_number()
        } else if self.infinite() {
            self
        } else if rhs.infinite() {
            rhs
        } else {
            let exact = self.value() + rhs.value();
            if exact > 0 {
                Single::nearest(false, exact, 1)
            } else if exact < 0 {
                Single::nearest(true, -exact, 1)
            } else {
                Single::signed(self.negative() && rhs.negative(), 0)
            }
        }
    }

    /// The difference, rounded once.
    pub open spec fn spec_sub(self, rhs: Single) -> Single {
        self.spec_add(rhs.negated())
    }

    /// The product, rounded once.
    #[verifier::opaque]
    pub open spec fn spec_mul(self, rhs: Single) -> Single {
        let negative = self.negative() != rhs.negative();
        if self.nan() || rhs.nan() || (self.infinite() && rhs.pattern() == 0) || (rhs.infinite()
            && self.pattern() == 0) {
            Single::not_a_number()
        } else if self.infinite() || rhs.infinite() {
            Single::signed(negative, SINGLE_INFINITY as int)
        } else {
            Single::nearest(negative, self.magnitude() * rhs.magnitude(), pow2(149) as int)
        }
    }

    /// The quotient, rounded once.
    #[verifier::opaque]
    pub open spec fn spec_div(self, rhs: Single) -> Single {
        let negative = self.negative() != rhs.negative();
        if self.nan() || rhs.nan() || (self.infinite() && rhs.infinite()) || (self.pattern() == 0
            && rhs.pattern() == 0) {
            Single::not_a_number()
        } else if self.infinite() || rhs.pattern() == 0 {
            Single::signed(negative, SINGLE_INFINITY as int)
        } else if rhs.infinite() {
            Single::signed(negative, 0)
        } else {
            Single::nearest(negative, self.magnitude() * pow2(149), rhs.magnitude())
        }
    }

    /// What `/` means in contracts.
    pub open spec fn spec_euclidean_or_real_div(self, rhs: Single) -> Single {
        self.spec_div(rhs)
    }

    /// The square root, rounded once.
    #[verifier::opaque]
    pub open spec fn spec_sqrt(self) -> Single {
        if self.pattern() == 0 {
            self
        } else if self.nan() || self.negative() {
            Single::not_a_number()
        } else if self.infinite() {
            self
        } else {
            Single::signed(
                false,
                root::nearest_root(
                    self.magnitude() * pow2(149),
                    23,
                    patterns::infinity(23, 255),
                ),
            )
        }
    }

    /// Whether the value is less; never of a value that is no number.
    pub open spec fn spec_less(self, rhs: Single) -> bool {
        !self.nan() && !rhs.nan() && self.value() < rhs.value()
    }

    /// Whether the value is less or equal; never of a value that is no number.
    pub open spec fn spec_at_most(self, rhs: Single) -> bool {
        !self.nan() && !rhs.nan() && self.value() <= rhs.value()
    }

    /// The place of the value in the total order: negative values first, zero after negative
    /// zero, values that are no number at both ends.
    pub open spec fn rank(self) -> int {
        if self.negative() {
            -1 - self.pattern() as int
        } else {
            self.pattern() as int
        }
    }

    /// The value `n / d` of two integers.
    pub open spec fn spec_ratio(n: u64, d: u64) -> Single {
        Single::nearest(false, n * pow2(149), d as int)
    }

    /// The values of fractions are ordered as the fractions are, and they are no less than zero.
    pub proof fn law_ratios_are_ordered(n1: u64, d1: u64, n2: u64, d2: u64)
        requires
            d1 > 0,
            d2 > 0,
            n1 * d2 <= n2 * d1,
        ensures
            Single::spec_ratio(n1, d1).spec_at_most(Single::spec_ratio(n2, d2)),
            !Single::spec_ratio(n1, d1).negative(),
    {
        Self::lemma_format();
        reveal(Single::nearest);
        reveal(Single::magnitude);
        let unit = pow2(149) as int;
        let inf = patterns::infinity(23, 255);
        assert(n1 * unit * d2 <= n2 * unit * d1) by (nonlinear_arith)
            requires
                n1 * d2 <= n2 * d1,
                unit >= 0,
        ;
        rounding::lemma_nearest_exists(n1 * unit, d1 as int, 23, inf);
        rounding::lemma_nearest_exists(n2 * unit, d2 as int, 23, inf);
        rounding::law_rounding_keeps_order(
            n1 * unit,
            d1 as int,
            n2 * unit,
            d2 as int,
            23,
            inf,
        );
        let k1 = rounding::nearest(n1 * unit, d1 as int, 23, inf);
        let k2 = rounding::nearest(n2 * unit, d2 as int, 23, inf);
        if k1 < k2 {
            rounding::lemma_mag_increases(k1, k2, 23);
        }
    }

    /// What is clamped between two values in order, and is a number, lies between them.
    pub proof fn law_clamped_lies_between(self, low: Single, high: Single)
        requires
            !self.nan(),
            low.spec_at_most(high),
        ensures
            low.spec_at_most(self.clamp(low, high)),
            self.clamp(low, high).spec_at_most(high),
    {
    }

    /// The order of values is the order of their patterns with their signs.
    pub(crate) proof fn lemma_order(self, rhs: Single)
        ensures
            self.magnitude() >= 0,
            self.magnitude() == 0 <==> self.pattern() == 0,
            self.magnitude() < rhs.magnitude() <==> self.pattern() < rhs.pattern(),
            self.magnitude() == rhs.magnitude() <==> self.pattern() == rhs.pattern(),
            rhs.magnitude() >= 0,
            rhs.magnitude() == 0 <==> rhs.pattern() == 0,
    {
        reveal(Single::magnitude);
        let a = self.pattern() as int;
        let b = rhs.pattern() as int;
        rounding::lemma_mag_nonnegative(a, 23);
        rounding::lemma_mag_nonnegative(b, 23);
        if a < b {
            rounding::lemma_mag_increases(a, b, 23);
        } else if b < a {
            rounding::lemma_mag_increases(b, a, 23);
        }
    }

    #[verifier::allow_in_spec]
    pub fn from_bits(bits: u32) -> Single
        returns
            (Single { bits }),
    {
        Single { bits }
    }

    #[verifier::allow_in_spec]
    pub fn to_bits(self) -> u32
        returns
            self.bits,
    {
        self.bits
    }

    fn split_sign(self) -> (r: (bool, u64))
        ensures
            r.0 == self.negative(),
            r.1 == self.pattern(),
    {
        if self.bits >= SINGLE_SIGN {
            (true, (self.bits - SINGLE_SIGN) as u64)
        } else {
            (false, self.bits as u64)
        }
    }

    pub(crate) fn with_sign(negative: bool, pattern: u64) -> (r: Single)
        requires
            pattern <= SINGLE_INFINITY,
        ensures
            r == Single::signed(negative, pattern as int),
    {
        if negative {
            Single { bits: pattern as u32 + SINGLE_SIGN }
        } else {
            Single { bits: pattern as u32 }
        }
    }

    #[verifier::allow_in_spec]
    pub fn is_nan(self) -> bool
        returns
            self.nan(),
    {
        self.split_sign().1 > SINGLE_INFINITY
    }

    /// Whether the sign bit is set.
    #[verifier::allow_in_spec]
    pub fn is_negative(self) -> bool
        returns
            self.negative(),
    {
        self.bits >= SINGLE_SIGN
    }

    /// Whether the value is neither infinite nor no number.
    #[verifier::allow_in_spec]
    pub fn is_finite(self) -> bool
        returns
            self.pattern() < SINGLE_INFINITY,
    {
        self.split_sign().1 < SINGLE_INFINITY
    }

    /// The magnitude as a value.
    #[verifier::allow_in_spec]
    pub fn abs(self) -> Single
        returns
            Single::signed(false, self.pattern() as int),
    {
        Single { bits: self.split_sign().1 as u32 }
    }

    /// The value with the opposite sign.
    #[verifier::allow_in_spec]
    pub fn negated(self) -> Single
        returns
            Single::signed(!self.negative(), self.pattern() as int),
    {
        if self.bits >= SINGLE_SIGN {
            Single { bits: self.bits - SINGLE_SIGN }
        } else {
            Single { bits: self.bits + SINGLE_SIGN }
        }
    }

    /// The value `n / d` of two integers, rounded once.
    #[verifier::when_used_as_spec(spec_ratio)]
    pub fn ratio(n: u64, d: u64) -> (r: Single)
        requires
            d > 0,
        ensures
            r == Single::spec_ratio(n, d),
    {
        proof {
            Self::lemma_format();
            reveal(Single::nearest);
        }
        Single::with_sign(false, patterns::fraction(n, d, 23, 255, 149))
    }

    /// An integer, rounded once.
    #[verifier::allow_in_spec]
    pub fn integer(n: u64) -> Single
        returns
            Single::spec_ratio(n, 1),
    {
        Single::ratio(n, 1)
    }

    #[verifier::when_used_as_spec(spec_sqrt)]
    pub fn sqrt(self) -> (r: Single)
        ensures
            r == self.spec_sqrt(),
    {
        proof {
            Self::lemma_format();
            reveal(Single::spec_sqrt);
            reveal(Single::magnitude);
        }
        let (negative, pattern) = self.split_sign();
        if pattern == 0 {
            self
        } else if pattern > SINGLE_INFINITY || negative {
            Single { bits: 0x7FC0_0000 }
        } else if pattern == SINGLE_INFINITY {
            self
        } else {
            Single::with_sign(false, root::root(pattern, 23, 255, 149))
        }
    }

    #[verifier::when_used_as_spec(spec_less)]
    pub fn less(self, rhs: Single) -> (r: bool)
        ensures
            r == self.spec_less(rhs),
    {
        proof {
            self.lemma_order(rhs);
        }
        let (a_negative, a) = self.split_sign();
        let (b_negative, b) = rhs.split_sign();
        if a > SINGLE_INFINITY || b > SINGLE_INFINITY {
            false
        } else if a_negative {
            if b_negative {
                b < a
            } else {
                a != 0 || b != 0
            }
        } else {
            !b_negative && a < b
        }
    }

    #[verifier::when_used_as_spec(spec_at_most)]
    pub fn at_most(self, rhs: Single) -> (r: bool)
        ensures
            r == self.spec_at_most(rhs),
    {
        proof {
            self.lemma_order(rhs);
        }
        let (a_negative, a) = self.split_sign();
        let (b_negative, b) = rhs.split_sign();
        if a > SINGLE_INFINITY || b > SINGLE_INFINITY {
            false
        } else if a_negative {
            if b_negative {
                b <= a
            } else {
                true
            }
        } else if b_negative {
            a == 0 && b == 0
        } else {
            a <= b
        }
    }

    /// Whether the values are equal: zero equals negative zero.
    #[verifier::allow_in_spec]
    pub fn equals(self, rhs: Single) -> bool
        returns
            self.spec_at_most(rhs) && rhs.spec_at_most(self),
    {
        self.at_most(rhs) && rhs.at_most(self)
    }

    /// The lesser of two values; the other one where one is no number.
    #[verifier::allow_in_spec]
    pub fn min(self, rhs: Single) -> Single
        returns
            (if self.nan() || rhs.spec_less(self) {
                rhs
            } else {
                self
            }),
    {
        if self.is_nan() || rhs.less(self) {
            rhs
        } else {
            self
        }
    }

    /// The greater of two values; the other one where one is no number.
    #[verifier::allow_in_spec]
    pub fn max(self, rhs: Single) -> Single
        returns
            (if self.nan() || self.spec_less(rhs) {
                rhs
            } else {
                self
            }),
    {
        if self.is_nan() || self.less(rhs) {
            rhs
        } else {
            self
        }
    }

    /// The value, or the bound that it passes.
    #[verifier::allow_in_spec]
    pub fn clamp(self, low: Single, high: Single) -> Single
        returns
            (if self.spec_less(low) {
                low
            } else if high.spec_less(self) {
                high
            } else {
                self
            }),
    {
        if self.less(low) {
            low
        } else if high.less(self) {
            high
        } else {
            self
        }
    }

    /// One with the sign of the value.
    #[verifier::allow_in_spec]
    pub fn signum(self) -> Single
        returns
            (if self.nan() {
                Single::not_a_number()
            } else {
                Single { bits: if self.negative() { 0xBF80_0000 } else { 0x3F80_0000 } }
            }),
    {
        if self.is_nan() {
            Single { bits: 0x7FC0_0000 }
        } else if self.bits >= SINGLE_SIGN {
            Single { bits: 0xBF80_0000 }
        } else {
            Single { bits: 0x3F80_0000 }
        }
    }

    /// Whether the value comes before another one in the total order.
    #[verifier::allow_in_spec]
    pub fn precedes(self, rhs: Single) -> bool
        returns
            self.rank() < rhs.rank(),
    {
        let (a_negative, a) = self.split_sign();
        let (b_negative, b) = rhs.split_sign();
        if a_negative {
            !b_negative || b < a
        } else {
            !b_negative && a < b
        }
    }

    /// The integer below a value that is not negative: zero of a value that is negative or no
    /// number, and no more than the largest integer.
    pub open spec fn spec_floor(self) -> u64 {
        if self.nan() || self.negative() {
            0
        } else if self.infinite() {
            u64::MAX
        } else {
            let w = patterns::whole(self.magnitude(), 149, false);
            if w <= u64::MAX {
                w as u64
            } else {
                u64::MAX
            }
        }
    }

    #[verifier::when_used_as_spec(spec_floor)]
    pub fn floor(self) -> (r: u64)
        ensures
            r == self.spec_floor(),
    {
        proof {
            Self::lemma_format();
            reveal(Single::magnitude);
            Self::lemma_whole(self, false);
        }
        let (negative, pattern) = self.split_sign();
        if negative || pattern > SINGLE_INFINITY {
            0
        } else if pattern == SINGLE_INFINITY {
            u64::MAX
        } else {
            patterns::to_whole(pattern, 23, 255, 149, false)
        }
    }

    proof fn lemma_whole(x: Single, half: bool)
        ensures
            patterns::whole(x.magnitude(), 149, half) >= 0,
    {
        reveal(Single::magnitude);
        rounding::lemma_mag_nonnegative(x.pattern() as int, 23);
        vstd::arithmetic::power2::lemma_pow2_pos(149);
        let p = pow2(149) as int;
        vstd::arithmetic::div_mod::lemma_div_pos_is_pos(x.magnitude(), p);
        vstd::arithmetic::div_mod::lemma_div_pos_is_pos(2 * x.magnitude() + p, 2 * p);
    }

    /// The integer nearest to the magnitude, halves going up: zero of a value that is no number,
    /// and no more than the largest integer.
    pub open spec fn spec_round_magnitude(self) -> u64 {
        if self.nan() {
            0
        } else if self.infinite() {
            u64::MAX
        } else {
            let w = patterns::whole(self.magnitude(), 149, true);
            if w <= u64::MAX {
                w as u64
            } else {
                u64::MAX
            }
        }
    }

    #[verifier::when_used_as_spec(spec_round_magnitude)]
    pub fn round_magnitude(self) -> (r: u64)
        ensures
            r == self.spec_round_magnitude(),
    {
        proof {
            Self::lemma_format();
            reveal(Single::magnitude);
            Self::lemma_whole(self, true);
        }
        let (_, pattern) = self.split_sign();
        if pattern > SINGLE_INFINITY {
            0
        } else if pattern == SINGLE_INFINITY {
            u64::MAX
        } else {
            patterns::to_whole(pattern, 23, 255, 149, true)
        }
    }

    fn sum(self, rhs: Single) -> (r: Single)
        ensures
            r == self.spec_add(rhs),
    {
        proof {
            Self::lemma_format();
            reveal(Single::spec_add);
            reveal(Single::magnitude);
            reveal(Single::nearest);
            self.lemma_order(rhs);
        }
        let (a_negative, a) = self.split_sign();
        let (b_negative, b) = rhs.split_sign();
        if a > SINGLE_INFINITY || b > SINGLE_INFINITY || (a == SINGLE_INFINITY && b
            == SINGLE_INFINITY && a_negative != b_negative) {
            Single { bits: 0x7FC0_0000 }
        } else if a == SINGLE_INFINITY {
            self
        } else if b == SINGLE_INFINITY {
            rhs
        } else if a_negative == b_negative {
            if a == 0 && b == 0 {
                Single::with_sign(a_negative, 0)
            } else {
                Single::with_sign(a_negative, patterns::sum(a, b, 23, 255))
            }
        } else if b < a {
            Single::with_sign(a_negative, patterns::difference(a, b, 23, 255))
        } else if a < b {
            Single::with_sign(b_negative, patterns::difference(b, a, 23, 255))
        } else {
            Single::with_sign(false, 0)
        }
    }

    fn product(self, rhs: Single) -> (r: Single)
        ensures
            r == self.spec_mul(rhs),
    {
        proof {
            Self::lemma_format();
            reveal(Single::spec_mul);
            reveal(Single::magnitude);
            reveal(Single::nearest);
        }
        let (a_negative, a) = self.split_sign();
        let (b_negative, b) = rhs.split_sign();
        let negative: bool = a_negative != b_negative;
        if a > SINGLE_INFINITY || b > SINGLE_INFINITY || (a == SINGLE_INFINITY && b == 0) || (b
            == SINGLE_INFINITY && a == 0) {
            Single { bits: 0x7FC0_0000 }
        } else if a == SINGLE_INFINITY || b == SINGLE_INFINITY {
            Single::with_sign(negative, SINGLE_INFINITY)
        } else {
            Single::with_sign(negative, patterns::product(a, b, 23, 255, 149))
        }
    }

    fn quotient(self, rhs: Single) -> (r: Single)
        ensures
            r == self.spec_div(rhs),
    {
        proof {
            Self::lemma_format();
            reveal(Single::spec_div);
            reveal(Single::magnitude);
            reveal(Single::nearest);
        }
        let (a_negative, a) = self.split_sign();
        let (b_negative, b) = rhs.split_sign();
        let negative: bool = a_negative != b_negative;
        if a > SINGLE_INFINITY || b > SINGLE_INFINITY || (a == SINGLE_INFINITY && b
            == SINGLE_INFINITY) || (a == 0 && b == 0) {
            Single { bits: 0x7FC0_0000 }
        } else if a == SINGLE_INFINITY || b == 0 {
            Single::with_sign(negative, SINGLE_INFINITY)
        } else if b == SINGLE_INFINITY {
            Single::with_sign(negative, 0)
        } else {
            Single::with_sign(negative, patterns::ratio(a, b, 23, 255, 149))
        }
    }

    /// The value in double precision, which holds every one.
    pub open spec fn spec_to_double(self) -> Double {
        if self.nan() {
            Double::not_a_number()
        } else if self.infinite() {
            Double::signed(self.negative(), DOUBLE_INFINITY as int)
        } else {
            Double::nearest(self.negative(), self.magnitude() * pow2(925), 1)
        }
    }

    #[verifier::when_used_as_spec(spec_to_double)]
    pub fn to_double(self) -> (r: Double)
        ensures
            r == self.spec_to_double(),
    {
        proof {
            Self::lemma_format();
            Double::lemma_format();
            reveal(Single::magnitude);
            reveal(Double::nearest);
        }
        let (negative, pattern) = self.split_sign();
        if pattern > SINGLE_INFINITY {
            Double { bits: 0x7FF8_0000_0000_0000 }
        } else if pattern == SINGLE_INFINITY {
            Double::with_sign(negative, DOUBLE_INFINITY)
        } else {
            Double::with_sign(negative, patterns::widened(pattern, 23, 255, 52, 2047, 925))
        }
    }
}

impl core::ops::Add for Single {
    type Output = Single;

    fn add(self, rhs: Single) -> (r: Single) {
        self.sum(rhs)
    }
}

impl vstd::std_specs::ops::AddSpecImpl for Single {
    open spec fn obeys_add_spec() -> bool {
        true
    }

    open spec fn add_req(self, rhs: Single) -> bool {
        true
    }

    open spec fn add_spec(self, rhs: Single) -> Single {
        self.spec_add(rhs)
    }
}

impl core::ops::Sub for Single {
    type Output = Single;

    fn sub(self, rhs: Single) -> (r: Single) {
        self.sum(rhs.negated())
    }
}

impl vstd::std_specs::ops::SubSpecImpl for Single {
    open spec fn obeys_sub_spec() -> bool {
        true
    }

    open spec fn sub_req(self, rhs: Single) -> bool {
        true
    }

    open spec fn sub_spec(self, rhs: Single) -> Single {
        self.spec_sub(rhs)
    }
}

impl core::ops::Mul for Single {
    type Output = Single;

    fn mul(self, rhs: Single) -> (r: Single) {
        self.product(rhs)
    }
}

impl vstd::std_specs::ops::MulSpecImpl for Single {
    open spec fn obeys_mul_spec() -> bool {
        true
    }

    open spec fn mul_req(self, rhs: Single) -> bool {
        true
    }

    open spec fn mul_spec(self, rhs: Single) -> Single {
        self.spec_mul(rhs)
    }
}

impl core::ops::Div for Single {
    type Output = Single;

    fn div(self, rhs: Single) -> (r: Single) {
        self.quotient(rhs)
    }
}

impl vstd::std_specs::ops::DivSpecImpl for Single {
    open spec fn obeys_div_spec() -> bool {
        true
    }

    open spec fn div_req(self, rhs: Single) -> bool {
        true
    }

    open spec fn div_spec(self, rhs: Single) -> Single {
        self.spec_div(rhs)
    }
}

} // verus!
