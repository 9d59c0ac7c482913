//! How far a computed diagonal is from the exact one.

use vstd::prelude::*;
use vstd::arithmetic::power2::pow2;
use crate::bounds;
use crate::bounds::is_within;
use crate::double::Double;
use crate::patterns;
use crate::root;
use crate::rounding;
use crate::scaling;

verus! {

/// `2^53`: rounding loses no more than one part in so many.
pub open spec fn parts() -> int {
    0x20_0000_0000_0000
}

pub(crate) proof fn lemma_parts()
    ensures
        pow2(53) == parts(),
        2 * pow2(52) == parts(),
        pow2(52) == 0x10_0000_0000_0000,
{
    vstd::arithmetic::power2::lemma2_to64_rest();
    vstd::arithmetic::power2::lemma_pow2_unfold(53);
}

/// The error of a square.
proof fn lemma_square_error(x: Double)
    requires
        is_within(x, 1500),
    ensures
        ({
            let n = x.magnitude() * x.magnitude();
            let error = (x * x).magnitude() * pow2(1074) - n;
            let unit = pow2(1074) as int;
            &&& is_within(x * x, 1926)
            &&& !(x * x).negative()
            &&& (x * x).magnitude() >= 0
            &&& -(n + 0x10_0000_0000_0000 * unit) <= parts() * error <= n + 0x10_0000_0000_0000
                * unit
        }),
{
    let unit = pow2(1074) as int;
    let n = x.magnitude() * x.magnitude();
    lemma_parts();
    vstd::arithmetic::power2::lemma_pow2_pos(1074);
    bounds::lemma_product_within(x, x, 1500);
    scaling::lemma_square_sign(x);
    x.lemma_order(x * x);
    assert(n >= 0) by (nonlinear_arith)
        requires
            n == x.magnitude() * x.magnitude(),
    ;
    let k = patterns::rounded(n, unit, 52, 2047);
    Double::lemma_format();
    rounding::lemma_nearest_exists(n, unit, 52, patterns::infinity(52, 2047));
    bounds::lemma_signed(false, k);
    assert(x * x == Double::signed(false, k)) by {
        reveal(Double::spec_mul);
        reveal(Double::nearest);
    }
    bounds::lemma_rounding_error(n, unit);
    let error = rounding::mag(k, 52) * unit - n;
    assert(pow2(53) * error == parts() * error && pow2(52) * unit == 0x10_0000_0000_0000 * unit)
        by (nonlinear_arith)
        requires
            pow2(53) == parts(),
            pow2(52) == 0x10_0000_0000_0000,
    ;
}

/// The error of a square root.
proof fn lemma_root_error(s: Double)
    requires
        is_within(s, 1927),
        !s.negative(),
        pow2(53) <= s.magnitude(),
    ensures
        ({
            let r = s.sqrt();
            let t = s.magnitude() * pow2(1074);
            let q = parts();
            &&& r.is_finite()
            &&& !r.negative()
            &&& r.magnitude() > 0
            &&& ((q - 1) * r.magnitude()) * ((q - 1) * r.magnitude()) <= (q * q) * t
            &&& (q * q) * t <= ((q + 1) * r.magnitude()) * ((q + 1) * r.magnitude())
        }),
{
    let unit = pow2(1074) as int;
    let n = s.magnitude() * unit;
    let q = parts();
    lemma_parts();
    Double::lemma_format();
    patterns::lemma_small_powers(52);
    let inf = patterns::infinity(52, 2047);
    vstd::arithmetic::power2::lemma_pow2_pos(1074);
    vstd::arithmetic::power2::lemma_pow2_pos(53);
    vstd::arithmetic::power2::lemma_pow2_strictly_increases(53, 1074);
    vstd::arithmetic::power2::lemma_pow2_adds(1927, 1074);
    vstd::arithmetic::power2::lemma_pow2_adds(1501, 1501);
    vstd::arithmetic::power2::lemma_pow2_strictly_increases(3001, 3002);
    assert(pow2(53) * pow2(53) <= n) by (nonlinear_arith)
        requires
            n == s.magnitude() * unit,
            pow2(53) <= s.magnitude(),
            pow2(53) <= unit,
            pow2(53) > 0,
    ;
    assert(n <= pow2(1927) * unit) by (nonlinear_arith)
        requires
            n == s.magnitude() * unit,
            s.magnitude() <= pow2(1927),
            unit > 0,
    ;
    scaling::lemma_root_scales(n, 0, 1501);
    let p = root::nearest_root(n, 52, inf);
    let found = scaling::lemma_root_from(0, n, inf);
    assert(root::is_nearest_root(p, n, 52, inf));
    assert(scaling::raised(p, 0) == p);
    s.lemma_order(s);
    bounds::lemma_signed(false, p);
    let r = s.sqrt();
    assert(r == Double::signed(false, p)) by {
        reveal(Double::spec_sqrt);
    }
    let size = rounding::mag(p, 52);
    rounding::lemma_mag_nonnegative(p, 52);
    let (m, j) = rounding::lemma_split_exists(p, 52);
    rounding::lemma_mag_of_split(p, m, j, 52);
    let (m1, j1) = rounding::lemma_split_exists(p - 1, 52);
    rounding::lemma_mag_of_split(p - 1, m1, j1, 52);
    let u = pow2(j as nat) as int;
    let u1 = pow2(j1 as nat) as int;
    vstd::arithmetic::power2::lemma_pow2_pos(j as nat);
    vstd::arithmetic::power2::lemma_pow2_pos(j1 as nat);
    assert(m >= pow2(52)) by {
        lemma_normal(p, m, j);
    }
    assert(m1 >= pow2(52)) by {
        lemma_normal(p - 1, m1, j1);
    }
    let low = rounding::mag(p - 1, 52) + size;
    let high = size + rounding::mag(p + 1, 52);
    assert(low == (2 * m1 + 1) * u1) by (nonlinear_arith)
        requires
            low == m1 * u1 + (m1 + 1) * u1,
    ;
    assert(high == (2 * m + 1) * u) by (nonlinear_arith)
        requires
            high == m * u + (m + 1) * u,
    ;
    // the neighbours are close
    assert(q * high <= 2 * ((q + 1) * size)) by {
        assert(q * (2 * m + 1) <= 2 * ((q + 1) * m));
        assert(q * high == (q * (2 * m + 1)) * u) by (nonlinear_arith)
            requires
                high == (2 * m + 1) * u,
        ;
        assert(2 * ((q + 1) * size) == (2 * ((q + 1) * m)) * u) by (nonlinear_arith)
            requires
                size == m * u,
        ;
        bounds::lemma_product_order(q * (2 * m + 1), 2 * ((q + 1) * m), u);
    }
    assert(2 * ((q - 1) * size) <= q * low) by {
        assert(2 * ((q - 1) * (m1 + 1)) <= q * (2 * m1 + 1));
        assert(q * low == (q * (2 * m1 + 1)) * u1) by (nonlinear_arith)
            requires
                low == (2 * m1 + 1) * u1,
        ;
        assert(2 * ((q - 1) * size) == (2 * ((q - 1) * (m1 + 1))) * u1) by (nonlinear_arith)
            requires
                size == (m1 + 1) * u1,
        ;
        bounds::lemma_product_order(2 * ((q - 1) * (m1 + 1)), q * (2 * m1 + 1), u1);
    }
    let a = (q - 1) * size;
    let b = (q + 1) * size;
    assert(0 <= a && 0 <= b);
    assert((2 * a) * (2 * a) <= (q * low) * (q * low)) by (nonlinear_arith)
        requires
            0 <= 2 * a <= q * low,
    ;
    assert((q * high) * (q * high) <= (2 * b) * (2 * b)) by (nonlinear_arith)
        requires
            0 <= q * high <= 2 * b,
    ;
    assert((q * low) * (q * low) == (q * q) * (low * low)) by (nonlinear_arith);
    assert((q * high) * (q * high) == (q * q) * (high * high)) by (nonlinear_arith);
    assert((2 * a) * (2 * a) == 4 * (a * a)) by (nonlinear_arith);
    assert((2 * b) * (2 * b) == 4 * (b * b)) by (nonlinear_arith);
    bounds::lemma_product_order(low * low, 4 * n, q * q);
    bounds::lemma_product_order(4 * n, high * high, q * q);
    assert((low * low) * (q * q) == (q * q) * (low * low) && (high * high) * (q * q) == (q * q) * (
    high * high) && (4 * n) * (q * q) == 4 * ((q * q) * n)) by (nonlinear_arith);
}

/// The significand of a pattern beyond the smallest exponents is large.
proof fn lemma_normal(p: int, m: int, j: int)
    requires
        rounding::splits(p, m, j, 52),
        p >= 0x10_0000_0000_0000,
    ensures
        m >= pow2(52),
{
    patterns::lemma_small_powers(52);
    if m < pow2(52) {
        assert(j * pow2(52) == 0) by (nonlinear_arith)
            requires
                j == 0,
        ;
    }
}

/// `h` is the diagonal of `x` and `y` but for four parts in `2^53`, or all of them are next to
/// zero.
pub open spec fn is_near_diagonal(h: int, x: int, y: int) -> bool {
    let q = parts();
    let square = x * x + y * y;
    &&& 0 <= h
    &&& {
        ||| {
            &&& ((q - 4) * h) * ((q - 4) * h) <= (q * q) * square
            &&& (q * q) * square <= ((q + 4) * h) * ((q + 4) * h)
        }
        ||| h <= pow2(700) && -pow2(594) <= x <= pow2(594) && -pow2(594) <= y <= pow2(594)
    }
}

/// The square root of a value that is not large.
proof fn lemma_root_within(s: Double, e: nat)
    requires
        s.is_finite(),
        !s.negative(),
        600 <= e <= 2000,
        s.magnitude() <= pow2((2 * e - 1074) as nat),
    ensures
        is_within(s.sqrt(), e),
        !s.sqrt().negative(),
{
    let unit = pow2(1074) as int;
    let n = s.magnitude() * unit;
    Double::lemma_format();
    let inf = patterns::infinity(52, 2047);
    s.lemma_order(s);
    vstd::arithmetic::power2::lemma_pow2_pos(e);
    vstd::arithmetic::power2::lemma_pow2_pos(1074);
    if s.pattern() == 0 {
        reveal(Double::spec_sqrt);
    } else {
        let p = scaling::lemma_root_from(0, n, inf);
        root::lemma_nearest_root_is(p, n, 52, inf);
        bounds::lemma_power_pattern(e);
        let most = bounds::power_pattern(e);
        vstd::arithmetic::power2::lemma_pow2_adds((2 * e - 1074) as nat, 1074);
        vstd::arithmetic::power2::lemma_pow2_adds(e, e);
        assert(n <= pow2(e) * pow2(e)) by (nonlinear_arith)
            requires
                n == s.magnitude() * unit,
                s.magnitude() <= pow2((2 * e - 1074) as nat),
                pow2((2 * e - 1074) as nat) * unit == pow2(e) * pow2(e),
                unit > 0,
        ;
        if most < p {
            rounding::lemma_mag_increases(most, p, 52);
            if most < p - 1 {
                rounding::lemma_mag_increases(most, p - 1, 52);
            }
            let low = rounding::mag(p - 1, 52) + rounding::mag(p, 52);
            let twice = 2 * pow2(e) as int;
            assert(twice * twice < low * low) by (nonlinear_arith)
                requires
                    0 <= twice < low,
            ;
            assert(twice * twice == 4 * (pow2(e) * pow2(e))) by (nonlinear_arith)
                requires
                    twice == 2 * pow2(e),
            ;
            assert(false);
        }
        bounds::lemma_signed(false, p);
        if p < most {
            rounding::lemma_mag_increases(p, most, 52);
        }
        reveal(Double::spec_sqrt);
    }
}

/// The diagonal of sides that are next to zero.
proof fn lemma_small_hypot(x: Double, y: Double)
    requires
        x.is_finite(),
        y.is_finite(),
        x.magnitude() < pow2(594),
        y.magnitude() < pow2(594),
    ensures
        x.hypot(y).is_finite(),
        !x.hypot(y).negative(),
        x.hypot(y).magnitude() <= pow2(700),
{
    let up = Double { bits: 0x6570_0000_0000_0000 };
    let down = Double { bits: 0x1A70_0000_0000_0000 };
    scaling::lemma_thresholds();
    x.lemma_order(x.abs());
    y.lemma_order(y.abs());
    vstd::arithmetic::power2::lemma_pow2_strictly_increases(594, 1554);
    bounds::lemma_power_pattern(1674);
    bounds::lemma_power_pattern(474);
    assert(up.magnitude() == pow2(1674) && down.magnitude() == pow2(474)) by {
        reveal(Double::magnitude);
    }
    bounds::lemma_product_bound(x, up, 594, 1674);
    bounds::lemma_product_bound(y, up, 594, 1674);
    let a = x * up;
    let b = y * up;
    bounds::lemma_product_bound(a, a, 1194, 1194);
    bounds::lemma_product_bound(b, b, 1194, 1194);
    scaling::lemma_square_sign(a);
    scaling::lemma_square_sign(b);
    bounds::lemma_sum_within(a * a, b * b, 1314);
    bounds::lemma_sum_sign(a * a, b * b);
    let s = a * a + b * b;
    bounds::lemma_within_wider(s, 1315, 1316);
    lemma_root_within(s, 1195);
    bounds::lemma_product_bound(s.sqrt(), down, 1195, 474);
    bounds::lemma_product_sign(s.sqrt(), down);
    bounds::lemma_within_wider(s.sqrt() * down, 595, 700);
}

/// A computed diagonal is near the exact one.
pub proof fn lemma_hypot_error(x: Double, y: Double)
    requires
        is_within(x, 1500),
        is_within(y, 1500),
    ensures
        x.hypot(y).is_finite(),
        !x.hypot(y).negative(),
        is_near_diagonal(x.hypot(y).value(), x.value(), y.value()),
{
    let h = x.hypot(y);
    let q = parts();
    let unit = pow2(1074) as int;
    x.lemma_order(y);
    if x.magnitude() < pow2(594) && y.magnitude() < pow2(594) {
        lemma_small_hypot(x, y);
        h.lemma_order(h);
    } else {
        lemma_parts();
        vstd::arithmetic::power2::lemma_pow2_strictly_increases(1500, 1554);
        scaling::lemma_plain_hypot(x, y);
        lemma_square_error(x);
        lemma_square_error(y);
        let a = x * x;
        let b = y * y;
        bounds::lemma_sum_within(a, b, 1926);
        bounds::lemma_sum_sign(a, b);
        bounds::lemma_sum_error(a, b);
        let s = a + b;
        s.lemma_order(a);
        b.lemma_order(s);
        let xx = x.magnitude() * x.magnitude();
        let yy = y.magnitude() * y.magnitude();
        let square = xx + yy;
        assert(x.value() * x.value() == xx && y.value() * y.value() == yy) by (nonlinear_arith)
            requires
                x.value() == x.magnitude() || x.value() == -x.magnitude(),
                y.value() == y.magnitude() || y.value() == -y.magnitude(),
                xx == x.magnitude() * x.magnitude(),
                yy == y.magnitude() * y.magnitude(),
        ;
        // the smallest values do not count
        vstd::arithmetic::power2::lemma_pow2_adds(594, 594);
        vstd::arithmetic::power2::lemma_pow2_adds(114, 1074);
        vstd::arithmetic::power2::lemma_pow2_pos(1074);
        vstd::arithmetic::power2::lemma_pow2_strictly_increases(110, 114);
        vstd::arithmetic::power2::lemma_pow2_adds(55, 55);
        vstd::arithmetic::power2::lemma2_to64_rest();
        assert(pow2(110) == 0x4000_0000_0000_0000_0000_0000_0000) by (nonlinear_arith)
            requires
                pow2(110) == pow2(55) * pow2(55),
                pow2(55) == 0x80_0000_0000_0000,
        ;
        let wide = pow2(114) as int;
        assert(xx >= 0 && yy >= 0) by (nonlinear_arith)
            requires
                xx == x.magnitude() * x.magnitude(),
                yy == y.magnitude() * y.magnitude(),
        ;
        assert(wide * unit <= square) by {
            if pow2(594) <= x.magnitude() {
                assert(pow2(594) * pow2(594) <= xx) by (nonlinear_arith)
                    requires
                        pow2(594) <= x.magnitude(),
                        xx == x.magnitude() * x.magnitude(),
                ;
            } else {
                assert(pow2(594) * pow2(594) <= yy) by (nonlinear_arith)
                    requires
                        pow2(594) <= y.magnitude(),
                        yy == y.magnitude() * y.magnitude(),
                ;
            }
        }
        lemma_sum_of_squares(
            xx,
            yy,
            a.magnitude() * unit,
            b.magnitude() * unit,
            s.magnitude() * unit,
            a.magnitude(),
            b.magnitude(),
            s.magnitude(),
            unit,
            wide,
        );
        lemma_root_error(s);
        lemma_combined(s.magnitude() * unit, square, h.magnitude());
    }
}

/// The sum of two rounded squares, rounded, is near the sum of the squares.
proof fn lemma_sum_of_squares(
    xx: int,
    yy: int,
    au: int,
    bu: int,
    su: int,
    a: int,
    b: int,
    s: int,
    unit: int,
    wide: int,
)
    requires
        0 <= xx,
        0 <= yy,
        0 <= a,
        0 <= b,
        0 <= s,
        au == a * unit,
        bu == b * unit,
        su == s * unit,
        unit > 0,
        wide >= 0x4000_0000_0000_0000_0000_0000_0000,
        wide * unit <= xx + yy,
        -(xx + 0x10_0000_0000_0000 * unit) <= parts() * (au - xx) <= xx + 0x10_0000_0000_0000
            * unit,
        -(yy + 0x10_0000_0000_0000 * unit) <= parts() * (bu - yy) <= yy + 0x10_0000_0000_0000
            * unit,
        pow2(53) == parts(),
        -(a + b) <= pow2(53) * (s - (a + b)) <= a + b,
    ensures
        -(4 * (xx + yy)) <= parts() * (su - (xx + yy)) <= 4 * (xx + yy),
        su >= pow2(53) * unit,
        s >= pow2(53),
{
    let q = parts();
    let square = xx + yy;
    assert(pow2(53) * (s - (a + b)) == q * (s - (a + b))) by (nonlinear_arith)
        requires
            pow2(53) == q,
    ;
    let d = q * (s - (a + b));
    assert(d * unit == q * (su - (au + bu))) by (nonlinear_arith)
        requires
            d == q * (s - (a + b)),
            au == a * unit,
            bu == b * unit,
            su == s * unit,
    ;
    assert((a + b) * unit == au + bu) by (nonlinear_arith)
        requires
            au == a * unit,
            bu == b * unit,
    ;
    bounds::lemma_product_order(d, a + b, unit);
    bounds::lemma_product_order(-(a + b), d, unit);
    assert((-(a + b)) * unit == -(au + bu)) by (nonlinear_arith)
        requires
            (a + b) * unit == au + bu,
    ;
    assert(0x4000_0000_0000_0000_0000_0000_0000 * unit <= wide * unit) by (nonlinear_arith)
        requires
            wide >= 0x4000_0000_0000_0000_0000_0000_0000,
            unit > 0,
    ;
    assert(s >= pow2(53)) by {
        if s < pow2(53) {
            assert(su < pow2(53) * unit) by (nonlinear_arith)
                requires
                    su == s * unit,
                    s < pow2(53),
                    unit > 0,
            ;
            assert(pow2(53) * unit == q * unit) by (nonlinear_arith)
                requires
                    pow2(53) == q,
            ;
        }
    }
    assert(su >= pow2(53) * unit) by (nonlinear_arith)
        requires
            su == s * unit,
            s >= pow2(53),
            unit > 0,
    ;
}

/// Where a square root is near and what it is taken of is near, so is the result.
proof fn lemma_combined(t: int, square: int, h: int)
    requires
        0 <= h,
        0 <= square,
        ({
            let q = parts();
            &&& -(4 * square) <= q * (t - square) <= 4 * square
            &&& ((q - 1) * h) * ((q - 1) * h) <= (q * q) * t
            &&& (q * q) * t <= ((q + 1) * h) * ((q + 1) * h)
        }),
    ensures
        ({
            let q = parts();
            &&& ((q - 4) * h) * ((q - 4) * h) <= (q * q) * square
            &&& (q * q) * square <= ((q + 4) * h) * ((q + 4) * h)
        }),
{
    let q = parts();
    let hh = h * h;
    assert(hh >= 0) by (nonlinear_arith)
        requires
            hh == h * h,
    ;
    assert(((q - 1) * h) * ((q - 1) * h) == ((q - 1) * (q - 1)) * hh) by (nonlinear_arith)
        requires
            hh == h * h,
    ;
    assert(((q + 1) * h) * ((q + 1) * h) == ((q + 1) * (q + 1)) * hh) by (nonlinear_arith)
        requires
            hh == h * h,
    ;
    assert(((q - 4) * h) * ((q - 4) * h) == ((q - 4) * (q - 4)) * hh) by (nonlinear_arith)
        requires
            hh == h * h,
    ;
    assert(((q + 4) * h) * ((q + 4) * h) == ((q + 4) * (q + 4)) * hh) by (nonlinear_arith)
        requires
            hh == h * h,
    ;
    assert(((q - 4) * (q - 4)) * hh <= (q * q) * square) by (nonlinear_arith)
        requires
            q == 0x20_0000_0000_0000,
            hh >= 0,
            square >= 0,
            q * (t - square) <= 4 * square,
            ((q - 1) * (q - 1)) * hh <= (q * q) * t,
    ;
    assert((q * q) * square <= ((q + 4) * (q + 4)) * hh) by (nonlinear_arith)
        requires
            q == 0x20_0000_0000_0000,
            hh >= 0,
            square >= 0,
            -(4 * square) <= q * (t - square),
            (q * q) * t <= ((q + 1) * (q + 1)) * hh,
    ;
}

} // verus!
