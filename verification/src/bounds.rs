//! What holds of sums, products and quotients of doubles without working them out.

use vstd::prelude::*;
use vstd::arithmetic::power2::pow2;
use crate::double::{Double, DOUBLE_INFINITY};
use crate::patterns;
use crate::rounding;

verus! {

/// The pattern of `2^e` in units of the smallest positive value.
pub open spec fn power_pattern(e: nat) -> int {
    (e - 51) * 0x10_0000_0000_0000
}

/// The value of that pattern.
pub proof fn lemma_power_pattern(e: nat)
    requires
        52 <= e,
    ensures
        rounding::mag(power_pattern(e), 52) == pow2(e),
{
    patterns::lemma_small_powers(52);
    let j = e - 52;
    rounding::lemma_mag_of_split(power_pattern(e), pow2(52) as int, j, 52);
    vstd::arithmetic::power2::lemma_pow2_adds(52, j as nat);
}

/// An eighth, in units of the smallest positive value.
pub open spec fn eighth() -> int {
    pow2(1071) as int
}

/// The pattern of some eighths.
proof fn lemma_eighths(c: int) -> (k: int)
    requires
        1 <= c < 16,
    ensures
        0 < k < DOUBLE_INFINITY,
        rounding::mag(k, 52) == c * eighth(),
{
    patterns::lemma_small_powers(52);
    let s: nat = if c < 2 {
        52
    } else if c < 4 {
        51
    } else if c < 8 {
        50
    } else {
        49
    };
    let j: nat = (1071 - s) as nat;
    vstd::arithmetic::power2::lemma2_to64_rest();
    let m = c * pow2(s);
    let k = j * 0x10_0000_0000_0000 + m;
    assert(pow2(49) == 0x2_0000_0000_0000);
    assert(pow2(50) == 0x4_0000_0000_0000);
    assert(pow2(51) == 0x8_0000_0000_0000);
    let p = pow2(s) as int;
    assert(0x10_0000_0000_0000 <= m < 0x20_0000_0000_0000) by (nonlinear_arith)
        requires
            m == c * p,
            1 <= c < 16,
            p == if c < 2 {
                0x10_0000_0000_0000int
            } else if c < 4 {
                0x8_0000_0000_0000
            } else if c < 8 {
                0x4_0000_0000_0000
            } else {
                0x2_0000_0000_0000
            },
    ;
    rounding::lemma_mag_of_split(k, m, j as int, 52);
    vstd::arithmetic::power2::lemma_pow2_adds(s, j);
    assert(m * pow2(j) == c * eighth()) by (nonlinear_arith)
        requires
            m == c * pow2(s),
            pow2(s) * pow2(j) == eighth(),
    ;
    k
}

/// A pattern rounds to itself.
pub proof fn lemma_exact(k: int)
    requires
        0 <= k <= DOUBLE_INFINITY,
    ensures
        patterns::rounded(rounding::mag(k, 52), 1, 52, 2047) == k,
{
    Double::lemma_format();
    if k > 0 {
        rounding::lemma_mag_increases(k - 1, k, 52);
    }
    rounding::lemma_mag_increases(k, k + 1, 52);
    rounding::lemma_nearest_is(
        k,
        rounding::mag(k, 52),
        1,
        52,
        patterns::infinity(52, 2047),
    );
}

/// What is no more than a pattern's value rounds to no more.
pub proof fn lemma_rounds_below(n: int, d: int, k: int)
    requires
        d > 0,
        0 <= k <= DOUBLE_INFINITY,
        n <= rounding::mag(k, 52) * d,
    ensures
        0 <= patterns::rounded(n, d, 52, 2047) <= k,
{
    Double::lemma_format();
    lemma_exact(k);
    let inf = patterns::infinity(52, 2047);
    rounding::lemma_nearest_exists(n, d, 52, inf);
    rounding::law_rounding_keeps_order(n, d, rounding::mag(k, 52), 1, 52, inf);
}

/// What is no less than a pattern's value rounds to no less.
pub proof fn lemma_rounds_above(n: int, d: int, k: int)
    requires
        d > 0,
        0 <= k <= DOUBLE_INFINITY,
        n >= rounding::mag(k, 52) * d,
    ensures
        k <= patterns::rounded(n, d, 52, 2047) <= DOUBLE_INFINITY,
{
    Double::lemma_format();
    lemma_exact(k);
    let inf = patterns::infinity(52, 2047);
    rounding::lemma_nearest_exists(n, d, 52, inf);
    rounding::law_rounding_keeps_order(rounding::mag(k, 52), 1, n, d, 52, inf);
}

/// The value with a sign and a pattern.
pub proof fn lemma_signed(negative: bool, k: int)
    requires
        0 <= k <= DOUBLE_INFINITY,
    ensures
        Double::signed(negative, k).negative() == negative,
        Double::signed(negative, k).pattern() == k,
        Double::signed(negative, k).magnitude() == rounding::mag(k, 52),
        rounding::mag(k, 52) >= 0,
{
    reveal(Double::magnitude);
    rounding::lemma_mag_nonnegative(k, 52);
}

/// What rounding makes of a value that is no more than some eighths.
proof fn lemma_nearest_below(negative: bool, n: int, d: int, c: int)
    requires
        d > 0,
        0 <= n,
        1 <= c < 16,
        n <= c * eighth() * d,
    ensures
        Double::nearest(negative, n, d).is_finite(),
        Double::nearest(negative, n, d).negative() == negative,
        0 <= Double::nearest(negative, n, d).magnitude() <= c * eighth(),
{
    reveal(Double::nearest);
    let k = lemma_eighths(c);
    lemma_rounds_below(n, d, k);
    let r = patterns::rounded(n, d, 52, 2047);
    lemma_signed(negative, r);
    if r < k {
        rounding::lemma_mag_increases(r, k, 52);
    }
}

/// What rounding gives has the sign that was asked for and is a number.
pub proof fn lemma_nearest_signed(negative: bool, n: int, d: int)
    requires
        d > 0,
    ensures
        !Double::nearest(negative, n, d).nan(),
        Double::nearest(negative, n, d).negative() == negative,
        Double::nearest(negative, n, d).magnitude() >= 0,
{
    reveal(Double::nearest);
    Double::lemma_format();
    rounding::lemma_nearest_exists(n, d, 52, patterns::infinity(52, 2047));
    lemma_signed(negative, patterns::rounded(n, d, 52, 2047));
}

/// A fraction of no more than some eighths.
pub proof fn lemma_ratio_below(n: u64, d: u64, c: int)
    requires
        d > 0,
        1 <= c < 16,
        n * 8 <= c * d,
    ensures
        Double::spec_ratio(n, d).is_finite(),
        !Double::spec_ratio(n, d).negative(),
        0 <= Double::spec_ratio(n, d).value() <= c * eighth(),
{
    vstd::arithmetic::power2::lemma_pow2_adds(3, 1071);
    vstd::arithmetic::power2::lemma2_to64();
    vstd::arithmetic::power2::lemma_pow2_pos(1071);
    let e = eighth();
    assert(0 <= n * pow2(1074) <= c * e * d) by (nonlinear_arith)
        requires
            n * 8 <= c * d,
            pow2(1074) == 8 * e,
            e > 0,
    ;
    lemma_nearest_below(false, n * pow2(1074), d as int, c);
}

/// A fraction of no less than some eighths.
pub proof fn lemma_ratio_above(n: u64, d: u64, c: int)
    requires
        d > 0,
        1 <= c < 16,
        n * 8 >= c * d,
    ensures
        !Double::spec_ratio(n, d).nan(),
        !Double::spec_ratio(n, d).negative(),
        Double::spec_ratio(n, d).value() >= c * eighth(),
{
    reveal(Double::nearest);
    vstd::arithmetic::power2::lemma_pow2_adds(3, 1071);
    vstd::arithmetic::power2::lemma2_to64();
    vstd::arithmetic::power2::lemma_pow2_pos(1071);
    let e = eighth();
    let k = lemma_eighths(c);
    assert(n * pow2(1074) >= c * e * d) by (nonlinear_arith)
        requires
            n * 8 >= c * d,
            pow2(1074) == 8 * e,
            e > 0,
    ;
    lemma_rounds_above(n * pow2(1074), d as int, k);
    let r = patterns::rounded(n * pow2(1074), d as int, 52, 2047);
    lemma_signed(false, r);
    if k < r {
        rounding::lemma_mag_increases(k, r, 52);
    }
}

/// A fraction that is not zero is positive.
pub proof fn lemma_ratio_positive(n: u64, d: u64)
    requires
        n > 0,
        d > 0,
    ensures
        !Double::spec_ratio(n, d).nan(),
        Double::spec_ratio(n, d).value() > 0,
{
    reveal(Double::nearest);
    patterns::lemma_small_powers(52);
    vstd::arithmetic::power2::lemma2_to64();
    vstd::arithmetic::power2::lemma_pow2_strictly_increases(64, 1074);
    assert(n * pow2(1074) >= 1 * d) by (nonlinear_arith)
        requires
            n >= 1,
            pow2(1074) >= d,
    ;
    lemma_rounds_above(n * pow2(1074), d as int, 1);
    let r = patterns::rounded(n * pow2(1074), d as int, 52, 2047);
    lemma_signed(false, r);
    rounding::lemma_mag_nonnegative(r, 52);
}

/// The value zero is zero.
pub proof fn lemma_zero()
    ensures
        Double::spec_ratio(0, 1) == (Double { bits: 0 }),
{
    reveal(Double::nearest);
    assert(0 * pow2(1074) == 0) by (nonlinear_arith);
    patterns::lemma_rounded_zero(1, 52, 2047);
}

/// A sum is no more than the sum of bounds.
pub proof fn lemma_sum_below(a: Double, b: Double, c: int, d: int)
    requires
        0 <= c,
        0 <= d,
        1 <= c + d < 16,
        a.value() <= c * eighth(),
        b.value() <= d * eighth(),
        a.negative() || a.is_finite(),
        b.negative() || b.is_finite(),
        !(a + b).nan(),
    ensures
        !a.nan(),
        !b.nan(),
        (a + b).value() <= (c + d) * eighth(),
        (a + b).negative() || (a + b).is_finite(),
{
    reveal(Double::spec_add);
    a.lemma_order(b);
    vstd::arithmetic::power2::lemma_pow2_pos(1071);
    let e = eighth();
    assert((c + d) * e == c * e + d * e) by (nonlinear_arith);
    assert((c + d) * e > 0) by (nonlinear_arith)
        requires
            c + d >= 1,
            e > 0,
    ;
    if !a.infinite() && !b.infinite() {
        let exact = a.value() + b.value();
        if exact > 0 {
            lemma_nearest_below(false, exact, 1, c + d);
        } else if exact < 0 {
            lemma_nearest_signed(true, -exact, 1);
        } else {
            lemma_signed(a.negative() && b.negative(), 0);
            rounding::lemma_mag_nonnegative(0, 52);
        }
    }
}

/// A share of a value that is no more than one is no more than the share.
pub proof fn lemma_share_below(share: Double, x: Double, c: int)
    requires
        1 <= c < 16,
        !share.negative(),
        share.is_finite(),
        share.value() <= c * eighth(),
        x.value() <= 8 * eighth(),
        x.negative() || x.is_finite(),
        !(share * x).nan(),
    ensures
        !x.nan(),
        (share * x).value() <= c * eighth(),
        (share * x).negative() || (share * x).is_finite(),
{
    reveal(Double::spec_mul);
    share.lemma_order(x);
    vstd::arithmetic::power2::lemma_pow2_pos(1071);
    vstd::arithmetic::power2::lemma_pow2_pos(1074);
    vstd::arithmetic::power2::lemma_pow2_adds(3, 1071);
    vstd::arithmetic::power2::lemma2_to64();
    let e = eighth();
    assert(c * e > 0) by (nonlinear_arith)
        requires
            c >= 1,
            e > 0,
    ;
    if x.infinite() {
        lemma_signed(true, DOUBLE_INFINITY as int);
    } else {
        let a = share.magnitude();
        let b = x.magnitude();
        assert(0 <= a * b) by (nonlinear_arith)
            requires
                0 <= a,
                0 <= b,
        ;
        if x.negative() {
            lemma_nearest_signed(true, a * b, pow2(1074) as int);
        } else {
            assert(a * b <= c * e * pow2(1074)) by (nonlinear_arith)
                requires
                    0 <= a <= c * e,
                    0 <= b <= 8 * e,
                    pow2(1074) == 8 * e,
                    c >= 1,
                    e > 0,
            ;
            lemma_nearest_below(false, a * b, pow2(1074) as int, c);
        }
    }
}

/// The quotient of two values that are not negative is not negative.
pub proof fn lemma_quotient_sign(a: Double, b: Double)
    requires
        !a.negative(),
        !b.negative(),
    ensures
        !(a / b).negative(),
{
    reveal(Double::spec_div);
    a.lemma_order(b);
    vstd::arithmetic::power2::lemma_pow2_pos(1074);
    if b.pattern() != 0 && !b.nan() {
        lemma_nearest_signed(false, a.magnitude() * pow2(1074), b.magnitude());
    }
}

/// The product of two values that are not negative is not negative.
pub proof fn lemma_product_sign(a: Double, b: Double)
    requires
        !a.negative(),
        !b.negative(),
    ensures
        !(a * b).negative(),
{
    reveal(Double::spec_mul);
    vstd::arithmetic::power2::lemma_pow2_pos(1074);
    lemma_nearest_signed(false, a.magnitude() * b.magnitude(), pow2(1074) as int);
}

/// The sum of two values that are not negative is not negative.
pub proof fn lemma_sum_sign(a: Double, b: Double)
    requires
        !a.negative(),
        !b.negative(),
    ensures
        !(a + b).negative(),
{
    reveal(Double::spec_add);
    a.lemma_order(b);
    let exact = a.value() + b.value();
    lemma_nearest_signed(false, exact, 1);
}

/// What is no number stays no number.
pub proof fn lemma_no_number(a: Double, b: Double)
    requires
        a.nan() || b.nan(),
    ensures
        (a + b).nan(),
        (a - b).nan(),
        (a * b).nan(),
        (a / b).nan(),
        a.nan() ==> a.sqrt().nan(),
{
    reveal(Double::spec_add);
    reveal(Double::spec_mul);
    reveal(Double::spec_div);
    reveal(Double::spec_sqrt);
}

/// What rounding makes of a value that is no more than a power of two.
pub proof fn lemma_nearest_within(negative: bool, n: int, d: int, e: nat)
    requires
        d > 0,
        52 <= e <= 2097,
        n <= pow2(e) * d,
    ensures
        Double::nearest(negative, n, d).is_finite(),
        Double::nearest(negative, n, d).magnitude() <= pow2(e),
{
    reveal(Double::nearest);
    lemma_power_pattern(e);
    lemma_rounds_below(n, d, power_pattern(e));
    let p = patterns::rounded(n, d, 52, 2047);
    lemma_signed(negative, p);
    if p < power_pattern(e) {
        rounding::lemma_mag_increases(p, power_pattern(e), 52);
    }
}

/// A finite value, no more than a power of two.
pub open spec fn is_within(x: Double, e: nat) -> bool {
    x.is_finite() && x.magnitude() <= pow2(e)
}

/// A sum of values that are not large.
pub proof fn lemma_sum_within(a: Double, b: Double, e: nat)
    requires
        is_within(a, e),
        is_within(b, e),
        52 <= e < 2097,
    ensures
        is_within(a + b, e + 1),
        is_within(a - b, e + 1),
{
    let c = b.negated();
    a.lemma_order(b);
    b.lemma_order(c);
    vstd::arithmetic::power2::lemma_pow2_unfold(e + 1);
    vstd::arithmetic::power2::lemma_pow2_pos(e);
    reveal(Double::spec_add);
    lemma_signed(a.negative() && b.negative(), 0);
    lemma_signed(a.negative() && c.negative(), 0);
    rounding::lemma_mag_nonnegative(0, 52);
    let sum = a.value() + b.value();
    let difference = a.value() + c.value();
    lemma_nearest_within(sum < 0, if sum < 0 { -sum } else { sum }, 1, e + 1);
    lemma_nearest_within(
        difference < 0,
        if difference < 0 { -difference } else { difference },
        1,
        e + 1,
    );
}

/// A product of values that are not large.
pub proof fn lemma_product_within(a: Double, b: Double, e: nat)
    requires
        is_within(a, e),
        is_within(b, e),
        1126 <= 2 * e <= 3171,
    ensures
        is_within(a * b, (2 * e - 1074) as nat),
{
    let f = (2 * e - 1074) as nat;
    a.lemma_order(b);
    vstd::arithmetic::power2::lemma_pow2_pos(1074);
    vstd::arithmetic::power2::lemma_pow2_adds(e, e);
    vstd::arithmetic::power2::lemma_pow2_adds(f, 1074);
    let x = a.magnitude();
    let y = b.magnitude();
    assert(x * y <= pow2(f) * pow2(1074)) by (nonlinear_arith)
        requires
            0 <= x <= pow2(e),
            0 <= y <= pow2(e),
            pow2(e) * pow2(e) == pow2(f) * pow2(1074),
    ;
    lemma_nearest_within(a.negative() != b.negative(), x * y, pow2(1074) as int, f);
    reveal(Double::spec_mul);
}

/// A bound may be wider.
pub proof fn lemma_within_wider(x: Double, e: nat, f: nat)
    requires
        is_within(x, e),
        e <= f,
    ensures
        is_within(x, f),
{
    if e < f {
        vstd::arithmetic::power2::lemma_pow2_strictly_increases(e, f);
    }
}

/// A quotient of finite values by one that is not zero is a number.
pub proof fn lemma_quotient_number(a: Double, b: Double)
    requires
        a.is_finite(),
        b.is_finite(),
        b.value() != 0,
    ensures
        !(a / b).nan(),
{
    a.lemma_order(b);
    vstd::arithmetic::power2::lemma_pow2_pos(1074);
    lemma_nearest_signed(
        a.negative() != b.negative(),
        a.magnitude() * pow2(1074),
        b.magnitude(),
    );
    reveal(Double::spec_div);
}

/// A sum of which no term is positive infinity is a number.
pub proof fn lemma_sum_number(a: Double, b: Double)
    requires
        !a.nan(),
        !b.nan(),
        a.negative() || a.is_finite(),
        b.negative() || b.is_finite(),
    ensures
        !(a + b).nan(),
{
    reveal(Double::spec_add);
    a.lemma_order(b);
    let exact = a.value() + b.value();
    lemma_nearest_signed(exact < 0, if exact < 0 { -exact } else { exact }, 1);
    lemma_signed(a.negative() && b.negative(), 0);
}

/// A product by a finite value that is not zero is a number.
pub proof fn lemma_product_number(a: Double, b: Double)
    requires
        a.is_finite(),
        a.value() != 0,
        !b.nan(),
    ensures
        !(a * b).nan(),
{
    a.lemma_order(b);
    vstd::arithmetic::power2::lemma_pow2_pos(1074);
    let negative = a.negative() != b.negative();
    lemma_nearest_signed(negative, a.magnitude() * b.magnitude(), pow2(1074) as int);
    lemma_signed(negative, DOUBLE_INFINITY as int);
    reveal(Double::spec_mul);
}

/// Zero, or no number.
pub open spec fn is_nothing(x: Double) -> bool {
    x.nan() || x.pattern() == 0
}

/// Zero leaves a value as it is.
pub proof fn lemma_plus_zero(x: Double, zero: Double)
    requires
        x.is_finite(),
        zero.pattern() == 0,
    ensures
        (x + zero).is_finite(),
        (x + zero).value() == x.value(),
{
    reveal(Double::spec_add);
    reveal(Double::nearest);
    x.lemma_order(zero);
    lemma_exact(x.pattern() as int);
    assert(x.magnitude() == rounding::mag(x.pattern() as int, 52)) by {
        reveal(Double::magnitude);
    }
    lemma_signed(false, x.pattern() as int);
    lemma_signed(true, x.pattern() as int);
    lemma_signed(x.negative() && zero.negative(), 0);
    rounding::lemma_mag_nonnegative(0, 52);
}

/// Two equal values, moved alike, do not differ.
pub proof fn lemma_moved_alike(p: Double, q: Double, h: Double)
    requires
        p.is_finite(),
        q.is_finite(),
        p.value() == q.value(),
    ensures
        is_nothing((p + h) - (q + h)),
{
    let a = p + h;
    let b = q + h;
    p.lemma_order(q);
    if h.nan() {
        lemma_no_number(p, h);
        lemma_no_number(a, b);
    } else {
        assert(a == b || (a.pattern() == 0 && b.pattern() == 0)) by {
            reveal(Double::spec_add);
            lemma_signed(p.negative() && h.negative(), 0);
            lemma_signed(q.negative() && h.negative(), 0);
        }
        if a.nan() {
            lemma_no_number(a, b);
        } else {
            lemma_signed(!b.negative(), b.pattern() as int);
            a.lemma_order(b);
            a.lemma_order(b.negated());
            assert(is_nothing(a + b.negated())) by {
                reveal(Double::spec_add);
                lemma_signed(a.negative() && b.negated().negative(), 0);
            }
        }
    }
}

/// Zero times a finite value.
pub proof fn lemma_zero_product(a: Double, b: Double)
    requires
        a.pattern() == 0 && b.is_finite() || b.pattern() == 0 && a.is_finite(),
    ensures
        (a * b).pattern() == 0,
{
    reveal(Double::spec_mul);
    reveal(Double::nearest);
    a.lemma_order(b);
    vstd::arithmetic::power2::lemma_pow2_pos(1074);
    assert(a.magnitude() * b.magnitude() == 0) by (nonlinear_arith)
        requires
            a.magnitude() == 0 || b.magnitude() == 0,
    ;
    patterns::lemma_rounded_zero(pow2(1074) as int, 52, 2047);
    lemma_signed(a.negative() != b.negative(), 0);
}

/// The diagonal of nothing is nothing.
pub proof fn lemma_hypot_of_nothing(x: Double, y: Double)
    requires
        is_nothing(x),
        is_nothing(y),
    ensures
        is_nothing(x.hypot(y)),
{
    let up = Double { bits: 0x6570_0000_0000_0000 };
    let down = Double { bits: 0x1A70_0000_0000_0000 };
    if x.nan() || y.nan() {
        if x.nan() {
            lemma_no_number(x, up);
            lemma_no_number(x, down);
        } else {
            lemma_no_number(y, up);
            lemma_no_number(y, down);
        }
        lemma_squares_without_number(x, y);
        lemma_squares_without_number(x * up, y * up);
        lemma_squares_without_number(x * down, y * down);
        lemma_no_number(((x * up) * (x * up) + (y * up) * (y * up)).sqrt(), down);
        lemma_no_number(((x * down) * (x * down) + (y * down) * (y * down)).sqrt(), up);
    } else {
        lemma_zero_squares(x, y);
        lemma_zero_product(x, up);
        lemma_zero_product(y, up);
        lemma_zero_squares(x * up, y * up);
        lemma_zero_product(((x * up) * (x * up) + (y * up) * (y * up)).sqrt(), down);
        lemma_zero_product(x, down);
        lemma_zero_product(y, down);
        lemma_zero_squares(x * down, y * down);
        lemma_zero_product(((x * down) * (x * down) + (y * down) * (y * down)).sqrt(), up);
    }
}

proof fn lemma_squares_without_number(x: Double, y: Double)
    requires
        x.nan() || y.nan(),
    ensures
        (x * x + y * y).sqrt().nan(),
{
    if x.nan() {
        lemma_no_number(x, x);
    } else {
        lemma_no_number(y, y);
    }
    lemma_no_number(x * x, y * y);
    lemma_no_number(x * x + y * y, x);
}

proof fn lemma_zero_squares(x: Double, y: Double)
    requires
        x.pattern() == 0,
        y.pattern() == 0,
    ensures
        (x * x + y * y).sqrt().pattern() == 0,
{
    lemma_zero_product(x, x);
    lemma_zero_product(y, y);
    let a = x * x;
    let b = y * y;
    a.lemma_order(b);
    assert((a + b).pattern() == 0) by {
        reveal(Double::spec_add);
        lemma_signed(a.negative() && b.negative(), 0);
    }
    reveal(Double::spec_sqrt);
}

/// Nothing over a positive value is nothing.
pub proof fn lemma_nothing_over(x: Double, y: Double)
    requires
        is_nothing(x),
        !y.nan(),
        y.value() > 0,
    ensures
        is_nothing(x / y),
{
    x.lemma_order(y);
    if x.nan() {
        lemma_no_number(x, y);
    } else {
        reveal(Double::spec_div);
        reveal(Double::nearest);
        assert(0 * pow2(1074) == 0) by (nonlinear_arith);
        if !y.infinite() {
            patterns::lemma_rounded_zero(y.magnitude(), 52, 2047);
        }
        lemma_signed(x.negative() != y.negative(), 0);
    }
}

/// The error of rounding: no more than `2^-53` of the value, and half the smallest positive value
/// where that is more. An integer number of smallest values loses nothing but the first.
pub proof fn lemma_rounding_error(n: int, d: int)
    requires
        0 <= n,
        0 < d,
        patterns::rounded(n, d, 52, 2047) < DOUBLE_INFINITY,
    ensures
        ({
            let error = rounding::mag(patterns::rounded(n, d, 52, 2047), 52) * d - n;
            &&& -(n + pow2(52) * d) <= pow2(53) * error <= n + pow2(52) * d
            &&& d == 1 ==> -n <= pow2(53) * error <= n
        }),
{
    Double::lemma_format();
    patterns::lemma_small_powers(52);
    vstd::arithmetic::power2::lemma_pow2_unfold(53);
    let k = patterns::rounded(n, d, 52, 2047);
    let h = pow2(52) as int;
    rounding::lemma_nearest_exists(n, d, 52, patterns::infinity(52, 2047));
    let (m, j) = rounding::lemma_split_exists(k, 52);
    rounding::lemma_mag_of_split(k, m, j, 52);
    let u = pow2(j as nat) as int;
    vstd::arithmetic::power2::lemma_pow2_pos(j as nat);
    vstd::arithmetic::power2::lemma2_to64();
    let size = rounding::mag(k, 52);
    if size * d <= n {
        let gap = n - size * d;
        assert((m + 1) * u == size + u) by (nonlinear_arith)
            requires
                size == m * u,
        ;
        assert(2 * gap <= u * d) by (nonlinear_arith)
            requires
                2 * n <= (size + (size + u)) * d,
                gap == n - size * d,
        ;
        lemma_gap_is_small(n, d, gap, m, u, h, j, size);
    } else {
        assert(k > 0) by {
            rounding::lemma_mag_nonnegative(k, 52);
            if k == 0 {
                assert(size * d == 0) by (nonlinear_arith)
                    requires
                        size == 0,
                ;
            }
        }
        let (m1, j1) = rounding::lemma_split_exists(k - 1, 52);
        rounding::lemma_mag_of_split(k - 1, m1, j1, 52);
        let u1 = pow2(j1 as nat) as int;
        vstd::arithmetic::power2::lemma_pow2_pos(j1 as nat);
        let below = rounding::mag(k - 1, 52);
        let gap = size * d - n;
        assert((m1 + 1) * u1 == below + u1) by (nonlinear_arith)
            requires
                below == m1 * u1,
        ;
        assert(2 * gap <= u1 * d) by (nonlinear_arith)
            requires
                (below + size) * d <= 2 * n,
                size == below + u1,
                gap == size * d - n,
        ;
        assert(below * d <= n) by (nonlinear_arith)
            requires
                (below + size) * d <= 2 * n,
                size == below + u1,
                u1 > 0,
                d > 0,
        ;
        lemma_gap_is_small(n, d, gap, m1, u1, h, j1, below);
    }
}

/// Half the distance to the next pattern is small against a value above a pattern.
proof fn lemma_gap_is_small(
    n: int,
    d: int,
    gap: int,
    m: int,
    u: int,
    h: int,
    j: int,
    size: int,
)
    requires
        0 <= gap,
        2 * gap <= u * d,
        size == m * u,
        size * d <= n,
        d > 0,
        u > 0,
        h > 0,
        j >= 0,
        j == 0 || m >= h,
        j == 0 ==> u == 1,
        m >= 0,
    ensures
        2 * h * gap <= n + h * d,
        d == 1 ==> 2 * h * gap <= n,
{
    if j == 0 {
        assert(u * d == d) by (nonlinear_arith)
            requires
                u == 1,
        ;
        assert(2 * h * gap <= h * d) by (nonlinear_arith)
            requires
                2 * gap <= d,
                h > 0,
        ;
        assert(size * d >= 0) by (nonlinear_arith)
            requires
                size == m * u,
                m >= 0,
                u > 0,
                d > 0,
        ;
        if d == 1 {
            assert(gap == 0);
            assert(2 * h * gap == 0) by (nonlinear_arith)
                requires
                    gap == 0,
            ;
        }
    } else {
        assert(2 * h * gap <= h * (u * d)) by (nonlinear_arith)
            requires
                2 * gap <= u * d,
                h > 0,
        ;
        assert(0 < u * d) by (nonlinear_arith)
            requires
                u > 0,
                d > 0,
        ;
        assert(h * (u * d) <= m * (u * d)) by (nonlinear_arith)
            requires
                h <= m,
                0 < u * d,
        ;
        assert(m * (u * d) == size * d) by (nonlinear_arith)
            requires
                size == m * u,
        ;
        assert(h * d >= 0) by (nonlinear_arith)
            requires
                h > 0,
                d > 0,
        ;
    }
}

/// A sum between two values rounds to a value between them.
pub proof fn lemma_sum_between(a: Double, b: Double, low: Double, high: Double)
    requires
        a.is_finite(),
        b.is_finite(),
        low.is_finite(),
        high.is_finite(),
        low.value() <= a.value() + b.value() <= high.value(),
    ensures
        (a + b).is_finite(),
        low.value() <= (a + b).value() <= high.value(),
{
    reveal(Double::spec_add);
    reveal(Double::nearest);
    a.lemma_order(b);
    low.lemma_order(high);
    assert(low.magnitude() == rounding::mag(low.pattern() as int, 52)
        && high.magnitude() == rounding::mag(high.pattern() as int, 52)) by {
        reveal(Double::magnitude);
    }
    let exact = a.value() + b.value();
    if exact == 0 {
        lemma_signed(a.negative() && b.negative(), 0);
        rounding::lemma_mag_nonnegative(0, 52);
    } else if exact > 0 {
        let p = patterns::rounded(exact, 1, 52, 2047);
        lemma_rounds_below(exact, 1, high.pattern() as int);
        lemma_signed(false, p);
        if p < high.pattern() {
            rounding::lemma_mag_increases(p, high.pattern() as int, 52);
        }
        if !low.negative() {
            lemma_rounds_above(exact, 1, low.pattern() as int);
            if low.pattern() < p {
                rounding::lemma_mag_increases(low.pattern() as int, p, 52);
            }
        }
    } else {
        let p = patterns::rounded(-exact, 1, 52, 2047);
        lemma_rounds_below(-exact, 1, low.pattern() as int);
        lemma_signed(true, p);
        if p < low.pattern() {
            rounding::lemma_mag_increases(p, low.pattern() as int, 52);
        }
        if high.negative() {
            lemma_rounds_above(-exact, 1, high.pattern() as int);
            if high.pattern() < p {
                rounding::lemma_mag_increases(high.pattern() as int, p, 52);
            }
        }
    }
}

/// What is left of a rounded difference that loses a share of it is no more than the difference.
proof fn lemma_share_of_difference(n: int, t: int)
    requires
        0 < n,
        0 <= t <= pow2(1074) - pow2(1022),
        patterns::rounded(n, 1, 52, 2047) < DOUBLE_INFINITY,
    ensures
        ({
            let d = rounding::mag(patterns::rounded(n, 1, 52, 2047), 52);
            let p = patterns::rounded(d * t, pow2(1074) as int, 52, 2047);
            &&& 0 <= p < DOUBLE_INFINITY
            &&& 0 <= rounding::mag(p, 52) <= n
        }),
{
    Double::lemma_format();
    patterns::lemma_small_powers(52);
    let unit = pow2(1074) as int;
    let k = patterns::rounded(n, 1, 52, 2047);
    let d = rounding::mag(k, 52);
    let p = patterns::rounded(d * t, unit, 52, 2047);
    vstd::arithmetic::power2::lemma_pow2_pos(1074);
    vstd::arithmetic::power2::lemma_pow2_pos(1022);
    vstd::arithmetic::power2::lemma_pow2_adds(52, 1022);
    rounding::lemma_nearest_exists(n, 1, 52, patterns::infinity(52, 2047));
    rounding::lemma_mag_nonnegative(k, 52);
    if d <= n {
        assert(d * t <= d * unit) by (nonlinear_arith)
            requires
                0 <= d,
                t <= unit,
        ;
        lemma_rounds_below(d * t, unit, k);
        if p < k {
            rounding::lemma_mag_increases(p, k, 52);
        }
    } else {
        let (m, j) = rounding::lemma_split_exists(k - 1, 52);
        rounding::lemma_mag_of_split(k - 1, m, j, 52);
        let u = pow2(j as nat) as int;
        let below = rounding::mag(k - 1, 52);
        rounding::lemma_mag_increases(k - 1, k, 52);
        vstd::arithmetic::power2::lemma_pow2_pos(j as nat);
        vstd::arithmetic::power2::lemma2_to64();
        assert(below <= n);
        if j == 0 {
            assert(d == below + 1) by (nonlinear_arith)
                requires
                    d == (m + 1) * u,
                    below == m * u,
                    u == 1,
            ;
            assert(false);
        }
        let h = pow2(52) as int;
        let g = pow2(1022) as int;
        assert(t <= (h - 1) * g) by (nonlinear_arith)
            requires
                t <= unit - g,
                unit == h * g,
        ;
        assert((m + 1) * (h - 1) <= m * h) by (nonlinear_arith)
            requires
                h <= m,
        ;
        assert(d * t <= below * unit) by {
            assert(d * t <= d * ((h - 1) * g)) by (nonlinear_arith)
                requires
                    0 <= d,
                    t <= (h - 1) * g,
            ;
            assert(d * ((h - 1) * g) == ((m + 1) * (h - 1)) * (u * g)) by (nonlinear_arith)
                requires
                    d == (m + 1) * u,
            ;
            assert(u * g >= 0) by (nonlinear_arith)
                requires
                    u > 0,
                    g > 0,
            ;
            assert(((m + 1) * (h - 1)) * (u * g) <= (m * h) * (u * g)) by (nonlinear_arith)
                requires
                    (m + 1) * (h - 1) <= m * h,
                    u * g >= 0,
            ;
            assert((m * h) * (u * g) == below * unit) by (nonlinear_arith)
                requires
                    below == m * u,
                    unit == h * g,
            ;
        }
        lemma_rounds_below(d * t, unit, k - 1);
        if p < k - 1 {
            rounding::lemma_mag_increases(p, k - 1, 52);
        }
    }
    rounding::lemma_mag_nonnegative(p, 52);
}

/// A value that is drawn part of the way towards another stays between the two.
pub proof fn lemma_drawn_between(x: Double, limit: Double, t: Double)
    requires
        x.is_finite(),
        limit.is_finite(),
        (x - limit).is_finite(),
        x.value() != limit.value(),
        t.is_finite(),
        0 <= t.value() <= pow2(1074) - pow2(1022),
    ensures
        ({
            let moved = limit + (x - limit) * t;
            &&& moved.is_finite()
            &&& limit.value() <= x.value() ==> limit.value() <= moved.value() <= x.value()
            &&& x.value() <= limit.value() ==> x.value() <= moved.value() <= limit.value()
        }),
{
    let opposite = limit.negated();
    x.lemma_order(limit);
    limit.lemma_order(opposite);
    t.lemma_order(t);
    let exact = x.value() - limit.value();
    let n = if exact < 0 {
        -exact
    } else {
        exact
    };
    let unit = pow2(1074) as int;
    vstd::arithmetic::power2::lemma_pow2_pos(1074);
    let d = x - limit;
    let k = patterns::rounded(n, 1, 52, 2047);
    Double::lemma_format();
    rounding::lemma_nearest_exists(n, 1, 52, patterns::infinity(52, 2047));
    assert(d == Double::signed(exact < 0, k)) by {
        reveal(Double::spec_add);
        reveal(Double::nearest);
    }
    lemma_signed(exact < 0, k);
    lemma_share_of_difference(n, t.magnitude());
    let p = patterns::rounded(d.magnitude() * t.magnitude(), unit, 52, 2047);
    let drawn = d * t;
    assert(drawn == Double::signed((exact < 0) != t.negative(), p)) by {
        reveal(Double::spec_mul);
        reveal(Double::nearest);
    }
    lemma_signed((exact < 0) != t.negative(), p);
    if t.negative() {
        assert(t.magnitude() == 0);
        assert(d.magnitude() * t.magnitude() == 0) by (nonlinear_arith)
            requires
                t.magnitude() == 0,
        ;
        patterns::lemma_rounded_zero(unit, 52, 2047);
        rounding::lemma_mag_nonnegative(0, 52);
    }
    if exact > 0 {
        lemma_sum_between(limit, drawn, limit, x);
    } else {
        lemma_sum_between(limit, drawn, x, limit);
    }
}

/// The error of a sum: no more than `2^-53` of it.
pub proof fn lemma_sum_error(a: Double, b: Double)
    requires
        a.is_finite(),
        b.is_finite(),
        (a + b).is_finite(),
    ensures
        ({
            let exact = a.value() + b.value();
            let error = (a + b).value() - exact;
            &&& exact >= 0 ==> -exact <= pow2(53) * error <= exact
            &&& exact <= 0 ==> exact <= pow2(53) * error <= -exact
        }),
{
    reveal(Double::spec_add);
    reveal(Double::nearest);
    Double::lemma_format();
    let exact = a.value() + b.value();
    let n = if exact < 0 {
        -exact
    } else {
        exact
    };
    let k = patterns::rounded(n, 1, 52, 2047);
    rounding::lemma_nearest_exists(n, 1, 52, patterns::infinity(52, 2047));
    lemma_signed(exact < 0, k);
    lemma_signed(a.negative() && b.negative(), 0);
    rounding::lemma_mag_nonnegative(0, 52);
    assert(pow2(53) * 0 == 0) by (nonlinear_arith);
    if exact != 0 {
        lemma_rounding_error(n, 1);
        let e = rounding::mag(k, 52) - n;
        assert(pow2(53) * (-e) == -(pow2(53) * e)) by (nonlinear_arith);
    }
}

/// One times a value is the value.
pub proof fn lemma_times_one(x: Double)
    requires
        x.is_finite(),
    ensures
        x * Double::integer(1) == x,
{
    let one = Double::integer(1);
    let unit = pow2(1074) as int;
    vstd::arithmetic::power2::lemma_pow2_pos(1074);
    lemma_one();
    x.lemma_order(one);
    let k = x.pattern() as int;
    lemma_exact(k);
    Double::lemma_format();
    let n = x.magnitude();
    assert(n == rounding::mag(k, 52)) by {
        reveal(Double::magnitude);
    }
    let inf = patterns::infinity(52, 2047);
    assert(n * unit * 1 == n * unit) by (nonlinear_arith);
    rounding::law_rounding_keeps_order(n * unit, unit, n, 1, 52, inf);
    rounding::law_rounding_keeps_order(n, 1, n * unit, unit, 52, inf);
    reveal(Double::spec_mul);
    reveal(Double::nearest);
}

/// The value one.
pub proof fn lemma_one()
    ensures
        Double::integer(1).is_finite(),
        !Double::integer(1).negative(),
        Double::integer(1).value() == pow2(1074),
{
    lemma_ratio_below(1, 1, 8);
    lemma_ratio_above(1, 1, 8);
    vstd::arithmetic::power2::lemma_pow2_adds(3, 1071);
    vstd::arithmetic::power2::lemma2_to64();
}

/// The spacing of doubles above one.
pub proof fn lemma_power_ratio()
    ensures
        !Double::spec_ratio(1, 4503599627370496).nan(),
        Double::spec_ratio(1, 4503599627370496).value() >= pow2(1022),
{
    reveal(Double::nearest);
    patterns::lemma_small_powers(52);
    vstd::arithmetic::power2::lemma_pow2_adds(1022, 52);
    lemma_power_pattern(1022);
    lemma_rounds_above(1u64 * pow2(1074), 4503599627370496, power_pattern(1022));
    let r = patterns::rounded(1u64 * pow2(1074), 4503599627370496, 52, 2047);
    lemma_signed(false, r);
    if power_pattern(1022) < r {
        rounding::lemma_mag_increases(power_pattern(1022), r, 52);
    }
}

/// The value that is two steps below one.
pub proof fn lemma_below_one()
    ensures
        (Double { bits: 0x3FEF_FFFF_FFFF_FFFE }).value() == pow2(1074) - pow2(1022),
{
    reveal(Double::magnitude);
    patterns::lemma_small_powers(52);
    let m = 0x1F_FFFF_FFFF_FFFEint;
    rounding::lemma_mag_of_split(0x3FEF_FFFF_FFFF_FFFE, m, 1021, 52);
    vstd::arithmetic::power2::lemma_pow2_adds(53, 1021);
    vstd::arithmetic::power2::lemma_pow2_unfold(53);
    vstd::arithmetic::power2::lemma_pow2_unfold(1022);
}

/// A fraction of no less than a power of two.
pub proof fn lemma_share_above(n: u64, d: u64, e: nat)
    requires
        d > 0,
        52 <= e <= 1074,
        pow2(e) * d <= n * pow2(1074),
    ensures
        Double::spec_ratio(n, d).magnitude() >= pow2(e),
{
    reveal(Double::nearest);
    lemma_power_pattern(e);
    lemma_rounds_above(n * pow2(1074), d as int, power_pattern(e));
    let r = patterns::rounded(n * pow2(1074), d as int, 52, 2047);
    lemma_signed(false, r);
    if power_pattern(e) < r {
        rounding::lemma_mag_increases(power_pattern(e), r, 52);
    }
}

/// The product of two values that are not negative, the second no more than one, and its error.
pub proof fn lemma_product_error(a: Double, b: Double)
    requires
        a.is_finite(),
        b.is_finite(),
        !a.negative(),
        !b.negative(),
        b.magnitude() <= pow2(1074),
    ensures
        ({
            let n = a.magnitude() * b.magnitude();
            let error = (a * b).magnitude() * pow2(1074) - n;
            &&& (a * b).is_finite()
            &&& !(a * b).negative()
            &&& 0 <= (a * b).magnitude() <= a.magnitude()
            &&& -(n + pow2(52) * pow2(1074)) <= pow2(53) * error
        }),
{
    let unit = pow2(1074) as int;
    let n = a.magnitude() * b.magnitude();
    let k = patterns::rounded(n, unit, 52, 2047);
    vstd::arithmetic::power2::lemma_pow2_pos(1074);
    a.lemma_order(b);
    assert(a.magnitude() == rounding::mag(a.pattern() as int, 52)) by {
        reveal(Double::magnitude);
    }
    assert(0 <= n <= a.magnitude() * unit) by (nonlinear_arith)
        requires
            n == a.magnitude() * b.magnitude(),
            0 <= a.magnitude(),
            0 <= b.magnitude() <= unit,
    ;
    lemma_rounds_below(n, unit, a.pattern() as int);
    lemma_signed(false, k);
    if k < a.pattern() {
        rounding::lemma_mag_increases(k, a.pattern() as int, 52);
    }
    lemma_rounding_error(n, unit);
    reveal(Double::spec_mul);
    reveal(Double::nearest);
}

/// Products by a factor that is not negative keep their order.
pub proof fn lemma_product_order(a: int, b: int, c: int)
    requires
        a <= b,
        0 <= c,
    ensures
        a * c <= b * c,
{
    assert(a * c <= b * c) by (nonlinear_arith)
        requires
            a <= b,
            0 <= c,
    ;
}

/// A product of values below two bounds.
pub proof fn lemma_product_bound(a: Double, b: Double, e: nat, f: nat)
    requires
        is_within(a, e),
        is_within(b, f),
        1126 <= e + f <= 3171,
    ensures
        is_within(a * b, (e + f - 1074) as nat),
{
    let g = (e + f - 1074) as nat;
    a.lemma_order(b);
    vstd::arithmetic::power2::lemma_pow2_pos(1074);
    vstd::arithmetic::power2::lemma_pow2_adds(e, f);
    vstd::arithmetic::power2::lemma_pow2_adds(g, 1074);
    let x = a.magnitude();
    let y = b.magnitude();
    assert(x * y <= pow2(g) * pow2(1074)) by (nonlinear_arith)
        requires
            0 <= x <= pow2(e),
            0 <= y <= pow2(f),
            pow2(e) * pow2(f) == pow2(g) * pow2(1074),
    ;
    lemma_nearest_within(a.negative() != b.negative(), x * y, pow2(1074) as int, g);
    reveal(Double::spec_mul);
}

} // verus!
