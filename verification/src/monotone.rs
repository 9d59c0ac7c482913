//! Rounded sums, products and quotients keep the order of what they are made of.

use vstd::prelude::*;
use vstd::arithmetic::power2::pow2;
use crate::bounds;
use crate::double::Double;
use crate::patterns;
use crate::rounding;
use crate::scaling;

verus! {

/// Of two values that are not negative, the greater one rounds to no less.
pub proof fn lemma_nearest_order(n1: int, d1: int, n2: int, d2: int)
    requires
        d1 > 0,
        d2 > 0,
        n1 * d2 <= n2 * d1,
    ensures
        0 <= Double::nearest(false, n1, d1).magnitude() <= Double::nearest(
            false,
            n2,
            d2,
        ).magnitude(),
        Double::nearest(true, n1, d1).magnitude() == Double::nearest(false, n1, d1).magnitude(),
        Double::nearest(true, n2, d2).magnitude() == Double::nearest(false, n2, d2).magnitude(),
{
    reveal(Double::nearest);
    Double::lemma_format();
    let inf = patterns::infinity(52, 2047);
    rounding::lemma_nearest_exists(n1, d1, 52, inf);
    rounding::lemma_nearest_exists(n2, d2, 52, inf);
    rounding::law_rounding_keeps_order(n1, d1, n2, d2, 52, inf);
    let k1 = patterns::rounded(n1, d1, 52, 2047);
    let k2 = patterns::rounded(n2, d2, 52, 2047);
    bounds::lemma_signed(false, k1);
    bounds::lemma_signed(true, k1);
    bounds::lemma_signed(false, k2);
    bounds::lemma_signed(true, k2);
    if k1 < k2 {
        rounding::lemma_mag_increases(k1, k2, 52);
    }
}

/// A greater sum of finite values is no less when it is rounded.
pub proof fn lemma_sum_order(a: Double, b: Double, c: Double, d: Double)
    requires
        a.is_finite(),
        b.is_finite(),
        c.is_finite(),
        d.is_finite(),
        a.value() + b.value() <= c.value() + d.value(),
    ensures
        !(a + b).nan(),
        !(c + d).nan(),
        (a + b).value() <= (c + d).value(),
{
    reveal(Double::spec_add);
    let s = a.value() + b.value();
    let t = c.value() + d.value();
    bounds::lemma_signed(a.negative() && b.negative(), 0);
    bounds::lemma_signed(c.negative() && d.negative(), 0);
    assert((Double::signed(a.negative() && b.negative(), 0)).magnitude() == 0) by {
        (a + b).lemma_order(Double::signed(a.negative() && b.negative(), 0));
    }
    assert((Double::signed(c.negative() && d.negative(), 0)).magnitude() == 0) by {
        (a + b).lemma_order(Double::signed(c.negative() && d.negative(), 0));
    }
    bounds::lemma_nearest_signed(false, s, 1);
    bounds::lemma_nearest_signed(true, -s, 1);
    bounds::lemma_nearest_signed(false, t, 1);
    bounds::lemma_nearest_signed(true, -t, 1);
    if s > 0 {
        lemma_nearest_order(s, 1, t, 1);
    } else if t < 0 {
        lemma_nearest_order(-t, 1, -s, 1);
    }
}

/// A lesser subtrahend leaves no less.
pub proof fn lemma_difference_order(a: Double, b: Double, c: Double, d: Double)
    requires
        a.is_finite(),
        b.is_finite(),
        c.is_finite(),
        d.is_finite(),
        a.value() - b.value() <= c.value() - d.value(),
    ensures
        !(a - b).nan(),
        !(c - d).nan(),
        (a - b).value() <= (c - d).value(),
{
    bounds::lemma_signed(!b.negative(), b.pattern() as int);
    bounds::lemma_signed(!d.negative(), d.pattern() as int);
    b.lemma_order(b.negated());
    d.lemma_order(d.negated());
    lemma_sum_order(a, b.negated(), c, d.negated());
}

/// The product of greater values that are not negative is no less.
pub proof fn lemma_product_order(a: Double, b: Double, c: Double, d: Double)
    requires
        a.is_finite(),
        b.is_finite(),
        c.is_finite(),
        d.is_finite(),
        0 <= a.value() <= c.value(),
        0 <= b.value() <= d.value(),
    ensures
        !(a * b).nan(),
        !(c * d).nan(),
        0 <= (a * b).value() <= (c * d).value(),
{
    reveal(Double::spec_mul);
    let unit = pow2(1074) as int;
    vstd::arithmetic::power2::lemma_pow2_pos(1074);
    a.lemma_order(b);
    c.lemma_order(d);
    let (p, q, r, s) = (a.magnitude(), b.magnitude(), c.magnitude(), d.magnitude());
    assert(0 <= p * q <= r * s) by (nonlinear_arith)
        requires
            0 <= p <= r,
            0 <= q <= s,
    ;
    assert(p * q * unit <= r * s * unit) by {
        bounds::lemma_product_order(p * q, r * s, unit);
    }
    lemma_nearest_order(p * q, unit, r * s, unit);
    bounds::lemma_nearest_signed(a.negative() != b.negative(), p * q, unit);
    bounds::lemma_nearest_signed(c.negative() != d.negative(), r * s, unit);
    if a.negative() || b.negative() {
        assert(p * q == 0) by (nonlinear_arith)
            requires
                p == 0 || q == 0,
        ;
        bounds::lemma_zero_product(a, b);
        (a * b).lemma_order(a * b);
    }
    if c.negative() || d.negative() {
        assert(r * s == 0) by (nonlinear_arith)
            requires
                r == 0 || s == 0,
        ;
        assert(p * q == 0);
        bounds::lemma_zero_product(c, d);
        (c * d).lemma_order(a * b);
        bounds::lemma_zero_product(a, b);
    }
}

/// A greater value over a lesser one is no less.
pub proof fn lemma_quotient_order(a: Double, b: Double, c: Double, d: Double)
    requires
        a.is_finite(),
        b.is_finite(),
        c.is_finite(),
        d.is_finite(),
        0 <= a.value() <= c.value(),
        0 < d.value() <= b.value(),
        !a.negative(),
        !c.negative(),
    ensures
        !(a / b).nan(),
        !(c / d).nan(),
        0 <= (a / b).value() <= (c / d).value(),
{
    reveal(Double::spec_div);
    let unit = pow2(1074) as int;
    vstd::arithmetic::power2::lemma_pow2_pos(1074);
    a.lemma_order(b);
    c.lemma_order(d);
    let (p, q, r, s) = (a.magnitude(), b.magnitude(), c.magnitude(), d.magnitude());
    assert(0 <= p * unit <= r * unit) by (nonlinear_arith)
        requires
            0 <= p <= r,
            unit > 0,
    ;
    let x = p * unit;
    let y = r * unit;
    assert(x * s <= y * q) by (nonlinear_arith)
        requires
            0 <= x <= y,
            0 < s <= q,
    ;
    lemma_nearest_order(x, q, y, s);
    bounds::lemma_nearest_signed(false, x, q);
    bounds::lemma_nearest_signed(false, y, s);
}

/// An integer up to `2^53` is itself.
pub proof fn lemma_integer(n: u64)
    requires
        n <= 0x20_0000_0000_0000,
    ensures
        Double::integer(n).is_finite(),
        !Double::integer(n).negative(),
        Double::integer(n).magnitude() == n * pow2(1074),
{
    reveal(Double::nearest);
    vstd::arithmetic::power2::lemma_pow2_unfold(53);
    patterns::lemma_small_powers(52);
    let p = scaling::lemma_representable(n as int, 1074);
    bounds::lemma_exact(p);
    bounds::lemma_signed(false, p);
}

/// An integer times a value, and its error.
pub proof fn lemma_times_integer(x: Double, n: u64)
    requires
        x.is_finite(),
        n <= 0x20_0000_0000_0000,
        (x * Double::integer(n)).is_finite(),
    ensures
        ({
            let error = (x * Double::integer(n)).value() - n * x.value();
            &&& -(n * x.magnitude()) <= 0x20_0000_0000_0000 * error <= n * x.magnitude()
        }),
{
    reveal(Double::spec_mul);
    reveal(Double::nearest);
    Double::lemma_format();
    vstd::arithmetic::power2::lemma_pow2_unfold(53);
    patterns::lemma_small_powers(52);
    vstd::arithmetic::power2::lemma_pow2_pos(1074);
    lemma_integer(n);
    let unit = pow2(1074) as int;
    let inf = patterns::infinity(52, 2047);
    let m = x.magnitude();
    x.lemma_order(x);
    assert(m * (n * unit) == m * n * unit) by (nonlinear_arith);
    assert(m * n * unit * 1 == m * n * unit);
    assert(m * n >= 0 && m * n == n * m) by (nonlinear_arith)
        requires
            m >= 0,
            n >= 0,
    ;
    rounding::law_rounding_keeps_order(m * n * unit, unit, m * n, 1, 52, inf);
    rounding::law_rounding_keeps_order(m * n, 1, m * n * unit, unit, 52, inf);
    let k = patterns::rounded(m * n, 1, 52, 2047);
    rounding::lemma_nearest_exists(m * n, 1, 52, inf);
    bounds::lemma_signed(x.negative(), k);
    bounds::lemma_rounding_error(m * n, 1);
    let e = rounding::mag(k, 52) - m * n;
    assert(n * (-m) == -(n * m)) by (nonlinear_arith);
}

/// A difference, and its error.
pub proof fn lemma_difference_error(a: Double, b: Double)
    requires
        a.is_finite(),
        b.is_finite(),
        (a - b).is_finite(),
    ensures
        ({
            let exact = a.value() - b.value();
            let error = (a - b).value() - exact;
            &&& exact >= 0 ==> -exact <= 0x20_0000_0000_0000 * error <= exact
            &&& exact <= 0 ==> exact <= 0x20_0000_0000_0000 * error <= -exact
        }),
{
    patterns::lemma_small_powers(52);
    vstd::arithmetic::power2::lemma_pow2_unfold(53);
    bounds::lemma_signed(!b.negative(), b.pattern() as int);
    b.lemma_order(b.negated());
    bounds::lemma_sum_error(a, b.negated());
}

/// A positive factor keeps the order of values.
pub proof fn lemma_scaled_order(c: Double, x: Double, y: Double)
    requires
        c.is_finite(),
        c.value() > 0,
        x.is_finite(),
        y.is_finite(),
        x.value() <= y.value(),
    ensures
        !(c * x).nan(),
        !(c * y).nan(),
        (c * x).value() <= (c * y).value(),
        x.value() >= 0 ==> (c * x).value() >= 0,
        x.value() <= 0 ==> (c * x).value() <= 0,
{
    reveal(Double::spec_mul);
    let unit = pow2(1074) as int;
    vstd::arithmetic::power2::lemma_pow2_pos(1074);
    c.lemma_order(x);
    x.lemma_order(y);
    let (k, p, q) = (c.magnitude(), x.magnitude(), y.magnitude());
    assert(k * p >= 0 && k * q >= 0) by (nonlinear_arith)
        requires
            k >= 0,
            p >= 0,
            q >= 0,
    ;
    bounds::lemma_nearest_signed(x.negative(), k * p, unit);
    bounds::lemma_nearest_signed(y.negative(), k * q, unit);
    lemma_nearest_order(k * p, unit, k * p, unit);
    lemma_nearest_order(k * q, unit, k * q, unit);
    if p <= q {
        assert(k * p * unit <= k * q * unit) by (nonlinear_arith)
            requires
                p <= q,
                k >= 0,
                unit >= 0,
        ;
        lemma_nearest_order(k * p, unit, k * q, unit);
    } else {
        assert(k * q * unit <= k * p * unit) by (nonlinear_arith)
            requires
                q <= p,
                k >= 0,
                unit >= 0,
        ;
        lemma_nearest_order(k * q, unit, k * p, unit);
    }
    if p == 0 {
        bounds::lemma_zero_product(c, x);
        (c * x).lemma_order(c * x);
    }
    if q == 0 {
        bounds::lemma_zero_product(c, y);
        (c * y).lemma_order(c * y);
    }
}

/// Zero over a positive value is zero.
pub proof fn lemma_zero_over(x: Double, y: Double)
    requires
        x.pattern() == 0,
        !y.nan(),
        y.value() > 0,
    ensures
        (x / y).is_finite(),
        (x / y).value() == 0,
{
    reveal(Double::spec_div);
    reveal(Double::nearest);
    x.lemma_order(y);
    assert(0 * pow2(1074) == 0) by (nonlinear_arith);
    if !y.infinite() {
        patterns::lemma_rounded_zero(y.magnitude(), 52, 2047);
    }
    bounds::lemma_signed(x.negative() != y.negative(), 0);
    (x / y).lemma_order(x);
}

/// A product of values above two bounds.
pub proof fn lemma_product_above(a: Double, b: Double, e: nat, f: nat)
    requires
        a.is_finite(),
        b.is_finite(),
        !a.negative(),
        !b.negative(),
        pow2(e) <= a.magnitude(),
        pow2(f) <= b.magnitude(),
        1126 <= e + f <= 3171,
    ensures
        !(a * b).nan(),
        pow2((e + f - 1074) as nat) <= (a * b).value(),
{
    let g = (e + f - 1074) as nat;
    let unit = pow2(1074) as int;
    a.lemma_order(b);
    vstd::arithmetic::power2::lemma_pow2_pos(1074);
    vstd::arithmetic::power2::lemma_pow2_pos(e);
    vstd::arithmetic::power2::lemma_pow2_pos(f);
    vstd::arithmetic::power2::lemma_pow2_adds(e, f);
    vstd::arithmetic::power2::lemma_pow2_adds(g, 1074);
    let x = a.magnitude();
    let y = b.magnitude();
    assert(x * y >= pow2(g) * unit) by (nonlinear_arith)
        requires
            0 <= pow2(e) <= x,
            0 <= pow2(f) <= y,
            pow2(e) * pow2(f) == pow2(g) * unit,
    ;
    reveal(Double::spec_mul);
    reveal(Double::nearest);
    bounds::lemma_power_pattern(g);
    bounds::lemma_rounds_above(x * y, unit, bounds::power_pattern(g));
    let r = patterns::rounded(x * y, unit, 52, 2047);
    bounds::lemma_signed(false, r);
    if bounds::power_pattern(g) < r {
        rounding::lemma_mag_increases(bounds::power_pattern(g), r, 52);
    }
}

/// The size of a number.
pub open spec fn size(n: int) -> int {
    if n < 0 {
        -n
    } else {
        n
    }
}

/// A product by a factor of no more than one, and its error.
pub proof fn lemma_share_error(a: Double, b: Double)
    requires
        a.is_finite(),
        b.is_finite(),
        b.magnitude() <= pow2(1074),
    ensures
        ({
            let exact = a.value() * b.value();
            let error = (a * b).value() * pow2(1074) - exact;
            &&& (a * b).is_finite()
            &&& (a * b).magnitude() <= a.magnitude()
            &&& 0x20_0000_0000_0000 * size(error) <= size(exact) + 0x10_0000_0000_0000 * pow2(1074)
            &&& size(exact) <= a.magnitude() * pow2(1074)
        }),
{
    patterns::lemma_small_powers(52);
    vstd::arithmetic::power2::lemma_pow2_unfold(53);
    let unit = pow2(1074) as int;
    let (p, q) = (a.magnitude(), b.magnitude());
    let n = p * q;
    let k = patterns::rounded(n, unit, 52, 2047);
    vstd::arithmetic::power2::lemma_pow2_pos(1074);
    a.lemma_order(b);
    assert(p == rounding::mag(a.pattern() as int, 52)) by {
        reveal(Double::magnitude);
    }
    assert(0 <= n <= p * unit) by (nonlinear_arith)
        requires
            n == p * q,
            0 <= p,
            0 <= q <= unit,
    ;
    bounds::lemma_rounds_below(n, unit, a.pattern() as int);
    let negative = a.negative() != b.negative();
    bounds::lemma_signed(negative, k);
    if k < a.pattern() {
        rounding::lemma_mag_increases(k, a.pattern() as int, 52);
    }
    bounds::lemma_rounding_error(n, unit);
    reveal(Double::spec_mul);
    reveal(Double::nearest);
    let m = rounding::mag(k, 52);
    assert(a.value() * b.value() == if negative {
        -n
    } else {
        n
    }) by (nonlinear_arith)
        requires
            n == p * q,
            a.value() == if a.negative() { -p } else { p },
            b.value() == if b.negative() { -q } else { q },
            negative == (a.negative() != b.negative()),
    ;
    assert((-m) * unit == -(m * unit)) by (nonlinear_arith);
    assert(pow2(52) * unit == 0x10_0000_0000_0000 * unit);
}

/// A quotient, and its error.
pub proof fn lemma_quotient_error(a: Double, b: Double, e: nat)
    requires
        a.is_finite(),
        b.is_finite(),
        b.value() > 0,
        52 <= e <= 2097,
        a.magnitude() * pow2(1074) <= pow2(e) * b.value(),
    ensures
        ({
            let error = (a / b).value() * b.value() - a.value() * pow2(1074);
            &&& bounds::is_within(a / b, e)
            &&& 0x20_0000_0000_0000 * size(error) <= a.magnitude() * pow2(1074)
                + 0x10_0000_0000_0000 * b.value()
        }),
{
    patterns::lemma_small_powers(52);
    vstd::arithmetic::power2::lemma_pow2_unfold(53);
    let unit = pow2(1074) as int;
    vstd::arithmetic::power2::lemma_pow2_pos(1074);
    a.lemma_order(b);
    let (p, d) = (a.magnitude(), b.magnitude());
    let n = p * unit;
    assert(n >= 0) by (nonlinear_arith)
        requires
            n == p * unit,
            p >= 0,
            unit > 0,
    ;
    reveal(Double::spec_div);
    bounds::lemma_nearest_within(a.negative(), n, d, e);
    reveal(Double::nearest);
    Double::lemma_format();
    rounding::lemma_nearest_exists(n, d, 52, patterns::infinity(52, 2047));
    let k = patterns::rounded(n, d, 52, 2047);
    bounds::lemma_signed(a.negative(), k);
    bounds::lemma_rounding_error(n, d);
    let m = rounding::mag(k, 52);
    assert((-m) * d == -(m * d)) by (nonlinear_arith);
    assert((-p) * unit == -(p * unit)) by (nonlinear_arith);
}

} // verus!
