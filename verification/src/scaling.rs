//! Multiplying by a power of two commutes with rounding, as long as the values keep clear of both
//! ends of their range.

use vstd::prelude::*;
use vstd::arithmetic::power2::pow2;
use crate::bounds;
use crate::bounds::{lemma_power_pattern, power_pattern};
use crate::double::{Double, DOUBLE_INFINITY};
use crate::model::{
    epsilon, midpoint, point_sum, region_from, safe_ratio, spec_mean, spec_region,
    spec_region_center, spec_region_diameter, widest, BoundingBox, FaceGeometry, LandmarkKind,
    Point, RegionView,
};
use crate::patterns;
use crate::root;
use crate::rounding;

verus! {

/// `y` is `x` times `2^k`.
pub open spec fn is_scaled(x: Double, y: Double, k: nat) -> bool {
    &&& x.is_finite()
    &&& y.is_finite()
    &&& y.negative() == x.negative()
    &&& y.magnitude() == x.magnitude() * pow2(k)
}

/// A pattern with its exponent raised by `k`.
pub open spec fn raised(p: int, k: nat) -> int {
    p + k * 0x10_0000_0000_0000
}

/// Raising the exponent of a normal pattern multiplies its value.
proof fn lemma_raised(p: int, k: nat)
    requires
        p >= 0x10_0000_0000_0000,
    ensures
        rounding::mag(raised(p, k), 52) == rounding::mag(p, 52) * pow2(k),
{
    patterns::lemma_small_powers(52);
    let (m, j) = rounding::lemma_split_exists(p, 52);
    if m < pow2(52) {
        assert(j == 0);
        assert(false) by (nonlinear_arith)
            requires
                p == j * pow2(52) + m,
                j == 0,
                m < pow2(52),
                p >= pow2(52),
        ;
    }
    rounding::lemma_mag_of_split(p, m, j, 52);
    assert(raised(p, k) == (j + k) * pow2(52) + m) by (nonlinear_arith)
        requires
            p == j * pow2(52) + m,
            raised(p, k) == p + k * 0x10_0000_0000_0000,
            pow2(52) == 0x10_0000_0000_0000,
    ;
    rounding::lemma_mag_of_split(raised(p, k), m, j + k, 52);
    vstd::arithmetic::power2::lemma_pow2_adds(j as nat, k);
    assert(m * (pow2(j as nat) * pow2(k)) == m * pow2(j as nat) * pow2(k)) by (nonlinear_arith);
}

/// Rounding of a value that is normal, and not next to the values that are not.
proof fn lemma_rounding_scales(n: int, d: int, k: nat, e: nat)
    requires
        d > 0,
        pow2(53) * d <= n <= pow2(e) * d,
        53 <= e,
        e + k <= 2097,
    ensures
        0x20_0000_0000_0000 <= patterns::rounded(n, d, 52, 2047) <= power_pattern(e),
        patterns::rounded(n * pow2(k), d, 52, 2047) == raised(
            patterns::rounded(n, d, 52, 2047),
            k,
        ),
        raised(patterns::rounded(n, d, 52, 2047), k) < DOUBLE_INFINITY,
{
    Double::lemma_format();
    let inf = patterns::infinity(52, 2047);
    let p = patterns::rounded(n, d, 52, 2047);
    let q = raised(p, k);
    let s = pow2(k) as int;
    vstd::arithmetic::power2::lemma_pow2_pos(k);
    lemma_power_pattern(53);
    lemma_power_pattern(e);
    bounds::lemma_rounds_above(n, d, power_pattern(53));
    bounds::lemma_rounds_below(n, d, power_pattern(e));
    rounding::lemma_nearest_exists(n, d, 52, inf);
    assert(power_pattern(e) + k * 0x10_0000_0000_0000 == (e + k - 51) * 0x10_0000_0000_0000)
        by (nonlinear_arith)
        requires
            power_pattern(e) == (e - 51) * 0x10_0000_0000_0000,
    ;
    lemma_raised(p - 1, k);
    lemma_raised(p, k);
    lemma_raised(p + 1, k);
    let low = rounding::mag(p - 1, 52) + rounding::mag(p, 52);
    let high = rounding::mag(p, 52) + rounding::mag(p + 1, 52);
    assert(rounding::mag(q - 1, 52) + rounding::mag(q, 52) == low * s) by (nonlinear_arith)
        requires
            rounding::mag(q - 1, 52) == rounding::mag(p - 1, 52) * s,
            rounding::mag(q, 52) == rounding::mag(p, 52) * s,
            low == rounding::mag(p - 1, 52) + rounding::mag(p, 52),
    ;
    assert(rounding::mag(q, 52) + rounding::mag(q + 1, 52) == high * s) by (nonlinear_arith)
        requires
            rounding::mag(q, 52) == rounding::mag(p, 52) * s,
            rounding::mag(q + 1, 52) == rounding::mag(p + 1, 52) * s,
            high == rounding::mag(p, 52) + rounding::mag(p + 1, 52),
    ;
    lemma_scaled_comparison(low * d, 2 * n, s);
    lemma_scaled_comparison(2 * n, high * d, s);
    assert(low * s * d == low * d * s && high * s * d == high * d * s && 2 * (n * s) == 2 * n * s)
        by (nonlinear_arith);
    assert(q % 2 == p % 2) by (nonlinear_arith)
        requires
            q == p + k * 0x10_0000_0000_0000,
    ;
    rounding::lemma_nearest_is(q, n * s, d, 52, inf);
}

proof fn lemma_scaled_comparison(a: int, b: int, s: int)
    requires
        s > 0,
    ensures
        a <= b <==> a * s <= b * s,
        a == b <==> a * s == b * s,
{
    assert(a <= b ==> a * s <= b * s) by (nonlinear_arith)
        requires
            s > 0,
    ;
    assert(a > b ==> a * s > b * s) by (nonlinear_arith)
        requires
            s > 0,
    ;
    assert(a < b ==> a * s < b * s) by (nonlinear_arith)
        requires
            s > 0,
    ;
}

/// The rounded values of a fraction and of its multiple.
proof fn lemma_nearest_scales(negative: bool, n: int, d: int, k: nat, e: nat)
    requires
        d > 0,
        n == 0 || pow2(53) * d <= n <= pow2(e) * d,
        53 <= e,
        e + k <= 2097,
    ensures
        is_scaled(Double::nearest(negative, n, d), Double::nearest(negative, n * pow2(k), d), k),
        Double::nearest(negative, n, d).negative() == negative,
        Double::nearest(negative, n, d).magnitude() <= pow2(e),
        n != 0 ==> Double::nearest(negative, n, d).magnitude() >= pow2(53),
        n == 0 ==> Double::nearest(negative, n, d).magnitude() == 0,
{
    reveal(Double::nearest);
    vstd::arithmetic::power2::lemma_pow2_pos(e);
    if n == 0 {
        patterns::lemma_rounded_zero(d, 52, 2047);
        bounds::lemma_signed(negative, 0);
        rounding::lemma_mag_nonnegative(0, 52);
        assert(0 * pow2(k) == 0) by (nonlinear_arith);
    } else {
        lemma_rounding_scales(n, d, k, e);
        let p = patterns::rounded(n, d, 52, 2047);
        bounds::lemma_signed(negative, p);
        bounds::lemma_signed(negative, raised(p, k));
        lemma_raised(p, k);
        lemma_power_pattern(e);
        lemma_power_pattern(53);
        if p < power_pattern(e) {
            rounding::lemma_mag_increases(p, power_pattern(e), 52);
        }
        if power_pattern(53) < p {
            rounding::lemma_mag_increases(power_pattern(53), p, 52);
        }
    }
}

/// A magnitude is a multiple of `2^g`.
pub open spec fn is_on_grid(magnitude: int, g: nat) -> bool {
    magnitude % pow2(g) as int == 0
}

/// A multiple of a power of two is one of every lower power.
proof fn lemma_grid_factor(n: int, g: nat, j: nat) -> (c: int)
    requires
        is_on_grid(n, g),
        j <= g,
    ensures
        n == c * pow2(j),
{
    let u = pow2(g) as int;
    vstd::arithmetic::power2::lemma_pow2_pos(g);
    vstd::arithmetic::div_mod::lemma_fundamental_div_mod(n, u);
    vstd::arithmetic::power2::lemma_pow2_adds((g - j) as nat, j);
    let c = (n / u) * pow2((g - j) as nat);
    assert(n == c * pow2(j)) by (nonlinear_arith)
        requires
            n == u * (n / u) + 0,
            u == pow2((g - j) as nat) * pow2(j),
            c == (n / u) * pow2((g - j) as nat),
    ;
    c
}

/// What is a number of units of `2^j` is on every grid that is no coarser.
proof fn lemma_on_grid(m: int, j: nat, g: nat)
    requires
        g <= j,
    ensures
        is_on_grid(m * pow2(j), g),
{
    vstd::arithmetic::power2::lemma_pow2_pos(g);
    vstd::arithmetic::power2::lemma_pow2_adds((j - g) as nat, g);
    let c = m * pow2((j - g) as nat);
    assert(m * pow2(j) == c * pow2(g)) by (nonlinear_arith)
        requires
            pow2(j) == pow2((j - g) as nat) * pow2(g),
            c == m * pow2((j - g) as nat),
    ;
    vstd::arithmetic::div_mod::lemma_mod_multiples_basic(c, pow2(g) as int);
}

/// A finer grid holds what a coarser one holds.
proof fn lemma_finer_grid(n: int, g: nat, f: nat)
    requires
        is_on_grid(n, g),
        f <= g,
    ensures
        is_on_grid(n, f),
{
    let c = lemma_grid_factor(n, g, f);
    lemma_on_grid(c, f, f);
}

/// A magnitude that is not small is on a grid.
proof fn lemma_large_on_grid(x: Double, lo: nat)
    requires
        x.magnitude() == 0 || pow2(lo) <= x.magnitude(),
        52 <= lo,
    ensures
        is_on_grid(x.magnitude(), (lo - 52) as nat),
{
    let g = (lo - 52) as nat;
    vstd::arithmetic::power2::lemma_pow2_pos(g);
    if x.magnitude() == 0 {
        lemma_on_grid(0, g, g);
        assert(0 * pow2(g) == 0) by (nonlinear_arith);
    } else {
        reveal(Double::magnitude);
        patterns::lemma_small_powers(52);
        let (m, j) = rounding::lemma_split_exists(x.pattern() as int, 52);
        rounding::lemma_mag_of_split(x.pattern() as int, m, j, 52);
        if j < g {
            vstd::arithmetic::power2::lemma_pow2_adds(53, j as nat);
            vstd::arithmetic::power2::lemma_pow2_unfold(53);
            assert(m * pow2(j as nat) < pow2(53) * pow2(j as nat)) by (nonlinear_arith)
                requires
                    m < pow2(53),
                    pow2(j as nat) > 0,
            ;
            if 53 + j < lo {
                vstd::arithmetic::power2::lemma_pow2_strictly_increases((53 + j) as nat, lo);
            }
            assert(false);
        }
        lemma_on_grid(m, j as nat, g);
    }
}

/// No multiple stands between a multiple and the next one.
proof fn lemma_no_multiple_between(m: int, c: int, u: int)
    requires
        u > 0,
    ensures
        c * u <= m * u || (m + 1) * u <= c * u,
{
    if c <= m {
        assert(c * u <= m * u) by (nonlinear_arith)
            requires
                c <= m,
                u > 0,
        ;
    } else {
        assert((m + 1) * u <= c * u) by (nonlinear_arith)
            requires
                m + 1 <= c,
                u > 0,
        ;
    }
}

/// Rounding leaves what is on a grid on it.
proof fn lemma_rounded_on_grid(n: int, g: nat)
    requires
        0 <= n,
        is_on_grid(n, g),
        patterns::rounded(n, 1, 52, 2047) < DOUBLE_INFINITY,
    ensures
        is_on_grid(rounding::mag(patterns::rounded(n, 1, 52, 2047), 52), g),
{
    Double::lemma_format();
    patterns::lemma_small_powers(52);
    let inf = patterns::infinity(52, 2047);
    let p = patterns::rounded(n, 1, 52, 2047);
    rounding::lemma_nearest_exists(n, 1, 52, inf);
    let (m, j) = rounding::lemma_split_exists(p, 52);
    rounding::lemma_mag_of_split(p, m, j, 52);
    rounding::lemma_mag_increases(p, p + 1, 52);
    vstd::arithmetic::power2::lemma_pow2_pos(j as nat);
    if j >= g {
        lemma_on_grid(m, j as nat, g);
    } else {
        let c = lemma_grid_factor(n, g, j as nat);
        if rounding::mag(p, 52) < n {
            lemma_no_multiple_between(m, c, pow2(j as nat) as int);
        }
        if n < rounding::mag(p, 52) {
            assert(p > 0) by {
                rounding::lemma_mag_nonnegative(p, 52);
            }
            let (m1, j1) = rounding::lemma_split_exists(p - 1, 52);
            rounding::lemma_mag_of_split(p - 1, m1, j1, 52);
            rounding::lemma_mag_increases(p - 1, p, 52);
            vstd::arithmetic::power2::lemma_pow2_pos(j1 as nat);
            if j1 > j {
                assert(false) by (nonlinear_arith)
                    requires
                        p == j * pow2(52) + m,
                        p - 1 == j1 * pow2(52) + m1,
                        j1 >= j + 1,
                        m1 >= pow2(52),
                        m < 2 * pow2(52),
                        pow2(52) > 0,
                ;
            }
            let c1 = lemma_grid_factor(n, g, j1 as nat);
            lemma_no_multiple_between(m1, c1, pow2(j1 as nat) as int);
        }
    }
}

/// What is on a grid is zero or no less than its step.
proof fn lemma_grid_least(n: int, g: nat)
    requires
        0 <= n,
        is_on_grid(n, g),
    ensures
        n == 0 || pow2(g) <= n,
{
    let c = lemma_grid_factor(n, g, g);
    vstd::arithmetic::power2::lemma_pow2_pos(g);
    if c <= 0 {
        assert(n <= 0) by (nonlinear_arith)
            requires
                n == c * pow2(g),
                c <= 0,
                pow2(g) > 0,
        ;
    } else {
        assert(pow2(g) <= n) by (nonlinear_arith)
            requires
                n == c * pow2(g),
                c >= 1,
                pow2(g) > 0,
        ;
    }
}

/// The values of two pairs, of which the second has the multiples of the first.
proof fn lemma_value_scaled(x: Double, y: Double, k: nat)
    requires
        is_scaled(x, y, k),
    ensures
        y.value() == x.value() * pow2(k),
        x.magnitude() >= 0,
{
    x.lemma_order(y);
    assert((-x.magnitude()) * pow2(k) == -(x.magnitude() * pow2(k))) by (nonlinear_arith);
}

/// The sum of multiples is the multiple of the sum.
proof fn lemma_sum_scales(
    a: Double,
    a2: Double,
    b: Double,
    b2: Double,
    k: nat,
    g: nat,
    e: nat,
    limit: int,
)
    requires
        is_scaled(a, a2, k),
        is_scaled(b, b2, k),
        is_on_grid(a.magnitude(), g),
        is_on_grid(b.magnitude(), g),
        53 <= g,
        53 <= e,
        e + k <= 2097,
        0 <= limit < DOUBLE_INFINITY,
        rounding::mag(limit, 52) <= pow2(e),
        a.magnitude() + b.magnitude() <= rounding::mag(limit, 52),
    ensures
        is_scaled(a + b, a2 + b2, k),
        is_on_grid((a + b).magnitude(), g),
        (a + b).magnitude() <= rounding::mag(limit, 52),
{
    lemma_value_scaled(a, a2, k);
    lemma_value_scaled(b, b2, k);
    let s = pow2(k) as int;
    let exact = a.value() + b.value();
    let size = if exact < 0 {
        -exact
    } else {
        exact
    };
    vstd::arithmetic::power2::lemma_pow2_pos(k);
    vstd::arithmetic::power2::lemma_pow2_pos(g);
    assert(a2.value() + b2.value() == exact * s) by (nonlinear_arith)
        requires
            a2.value() == a.value() * s,
            b2.value() == b.value() * s,
            exact == a.value() + b.value(),
    ;
    assert(exact > 0 ==> exact * s > 0) by (nonlinear_arith)
        requires
            s > 0,
    ;
    assert(exact < 0 ==> exact * s < 0) by (nonlinear_arith)
        requires
            s > 0,
    ;
    assert(exact == 0 ==> exact * s == 0) by (nonlinear_arith);
    assert((-exact) * s == -(exact * s)) by (nonlinear_arith);
    assert(is_on_grid(size, g)) by {
        let ca = lemma_grid_factor(a.magnitude(), g, g);
        let cb = lemma_grid_factor(b.magnitude(), g, g);
        let c = (if a.negative() {
            -ca
        } else {
            ca
        }) + (if b.negative() {
            -cb
        } else {
            cb
        });
        let u = pow2(g) as int;
        assert(exact == c * u) by (nonlinear_arith)
            requires
                a.magnitude() == ca * u,
                b.magnitude() == cb * u,
                exact == (if a.negative() {
                    -a.magnitude()
                } else {
                    a.magnitude()
                }) + (if b.negative() {
                    -b.magnitude()
                } else {
                    b.magnitude()
                }),
                c == (if a.negative() {
                    -ca
                } else {
                    ca
                }) + (if b.negative() {
                    -cb
                } else {
                    cb
                }),
        ;
        assert((-c) * u == -(c * u)) by (nonlinear_arith);
        lemma_on_grid(c, g, g);
        lemma_on_grid(-c, g, g);
    }
    lemma_grid_least(size, g);
    if 53 < g {
        vstd::arithmetic::power2::lemma_pow2_strictly_increases(53, g);
    }
    reveal(Double::spec_add);
    if exact == 0 {
        bounds::lemma_signed(a.negative() && b.negative(), 0);
        rounding::lemma_mag_nonnegative(0, 52);
        rounding::lemma_mag_nonnegative(limit, 52);
        assert(0 * s == 0) by (nonlinear_arith);
        lemma_on_grid(0, g, g);
        assert(0 * pow2(g) == 0) by (nonlinear_arith);
    } else {
        assert(pow2(53) * 1 <= size <= pow2(e) * 1);
        lemma_nearest_scales(exact < 0, size, 1, k, e);
        bounds::lemma_rounds_below(size, 1, limit);
        lemma_rounded_on_grid(size, g);
        let p = patterns::rounded(size, 1, 52, 2047);
        bounds::lemma_signed(exact < 0, p);
        reveal(Double::nearest);
        if p < limit {
            rounding::lemma_mag_increases(p, limit, 52);
        }
    }
}

/// The opposite of a multiple.
proof fn lemma_negated_scales(x: Double, y: Double, k: nat)
    requires
        is_scaled(x, y, k),
    ensures
        is_scaled(x.negated(), y.negated(), k),
        x.negated().magnitude() == x.magnitude(),
{
    x.lemma_order(x.negated());
    y.lemma_order(y.negated());
}

/// The quotient of a multiple by what stays the same, which is one at least and `2^64` at most.
proof fn lemma_quotient_scales(x: Double, y: Double, count: Double, k: nat, g: nat, e: nat)
    requires
        is_scaled(x, y, k),
        is_on_grid(x.magnitude(), g),
        x.magnitude() <= pow2(e),
        count.is_finite(),
        pow2(1074) <= count.magnitude() <= pow2(1138),
        169 <= g <= 2000,
        53 <= e,
        e + k <= 2097,
    ensures
        is_scaled(x / count, y / count, k),
        is_on_grid((x / count).magnitude(), (g - 116) as nat),
        (x / count).magnitude() <= pow2(e),
{
    let s = pow2(k) as int;
    let d = count.magnitude();
    let unit = pow2(1074) as int;
    let n = x.magnitude() * unit;
    x.lemma_order(y);
    count.lemma_order(count);
    vstd::arithmetic::power2::lemma_pow2_pos(1074);
    vstd::arithmetic::power2::lemma_pow2_pos(k);
    vstd::arithmetic::power2::lemma_pow2_pos(e);
    lemma_grid_least(x.magnitude(), g);
    let lo = (g - 64) as nat;
    assert(y.magnitude() * unit == n * s) by (nonlinear_arith)
        requires
            y.magnitude() == x.magnitude() * s,
            n == x.magnitude() * unit,
    ;
    assert(n <= pow2(e) * d) by (nonlinear_arith)
        requires
            n == x.magnitude() * unit,
            0 <= x.magnitude() <= pow2(e),
            0 < unit <= d,
    ;
    if x.magnitude() != 0 {
        vstd::arithmetic::power2::lemma_pow2_adds(lo, 1138);
        vstd::arithmetic::power2::lemma_pow2_adds(g, 1074);
        assert(pow2(lo) * d <= n) by (nonlinear_arith)
            requires
                pow2(lo) * pow2(1138) == pow2(g) * unit,
                d <= pow2(1138),
                pow2(g) <= x.magnitude(),
                n == x.magnitude() * unit,
                unit > 0,
                pow2(lo) >= 0,
        ;
        if 53 < lo {
            vstd::arithmetic::power2::lemma_pow2_strictly_increases(53, lo);
        }
        assert(pow2(53) * d <= pow2(lo) * d) by (nonlinear_arith)
            requires
                pow2(53) <= pow2(lo),
                d > 0,
        ;
    } else {
        assert(n == 0) by (nonlinear_arith)
            requires
                n == x.magnitude() * unit,
                x.magnitude() == 0,
        ;
    }
    let negative = x.negative() != count.negative();
    lemma_nearest_scales(negative, n, d, k, e);
    assert(x / count == Double::nearest(negative, n, d)) by {
        reveal(Double::spec_div);
    }
    assert(y / count == Double::nearest(negative, n * s, d)) by {
        reveal(Double::spec_div);
    }
    let r = x / count;
    assert(r.magnitude() == 0 || pow2(lo) <= r.magnitude()) by {
        if n != 0 {
            reveal(Double::nearest);
            lemma_power_pattern(lo);
            bounds::lemma_rounds_above(n, d, power_pattern(lo));
            let p = patterns::rounded(n, d, 52, 2047);
            bounds::lemma_signed(negative, p);
            if power_pattern(lo) < p {
                rounding::lemma_mag_increases(power_pattern(lo), p, 52);
            }
        }
    }
    lemma_large_on_grid(r, lo);
}

/// The square of a multiple.
proof fn lemma_square_scales(x: Double, y: Double, k: nat, g: nat, e: nat)
    requires
        is_scaled(x, y, k),
        is_on_grid(x.magnitude(), g),
        x.magnitude() <= pow2(e),
        1127 <= 2 * g,
        1127 <= 2 * e,
        2 * e + 2 * k <= 3171,
    ensures
        is_scaled(x * x, y * y, 2 * k),
        !(x * x).negative(),
        x.magnitude() == 0 ==> (x * x).magnitude() == 0,
        x.magnitude() != 0 ==> (x * x).magnitude() >= pow2(53),
        (x * x).magnitude() <= pow2((2 * e - 1074) as nat),
{
    let m = x.magnitude();
    let d = pow2(1074) as int;
    let s = pow2(k) as int;
    let f = (2 * e - 1074) as nat;
    let n = m * m;
    x.lemma_order(y);
    vstd::arithmetic::power2::lemma_pow2_pos(1074);
    lemma_grid_least(m, g);
    vstd::arithmetic::power2::lemma_pow2_adds(k, k);
    vstd::arithmetic::power2::lemma_pow2_adds(e, e);
    vstd::arithmetic::power2::lemma_pow2_adds(f, 1074);
    assert(y.magnitude() * y.magnitude() == n * pow2(2 * k)) by (nonlinear_arith)
        requires
            y.magnitude() == m * s,
            n == m * m,
            pow2(2 * k) == s * s,
    ;
    assert(n <= pow2(f) * d) by (nonlinear_arith)
        requires
            n == m * m,
            0 <= m <= pow2(e),
            pow2(e) * pow2(e) == pow2(f) * d,
    ;
    if m != 0 {
        vstd::arithmetic::power2::lemma_pow2_adds(g, g);
        vstd::arithmetic::power2::lemma_pow2_adds(53, 1074);
        if 1127 < 2 * g {
            vstd::arithmetic::power2::lemma_pow2_strictly_increases(1127, 2 * g);
        }
        assert(pow2(53) * d <= n) by (nonlinear_arith)
            requires
                n == m * m,
                pow2(g) <= m,
                pow2(53) * d <= pow2(g) * pow2(g),
                pow2(g) >= 0,
        ;
        assert(n > 0) by (nonlinear_arith)
            requires
                n == m * m,
                m != 0,
        ;
    } else {
        assert(n == 0) by (nonlinear_arith)
            requires
                n == m * m,
                m == 0,
        ;
    }
    lemma_nearest_scales(false, n, d, 2 * k, f);
    assert(x * x == Double::nearest(false, n, d)) by {
        reveal(Double::spec_mul);
    }
    assert(y * y == Double::nearest(false, n * pow2(2 * k), d)) by {
        reveal(Double::spec_mul);
    }
}

/// The sum of multiples of values that are not negative.
proof fn lemma_positive_sum_scales(a: Double, a2: Double, b: Double, b2: Double, k: nat, e: nat)
    requires
        is_scaled(a, a2, k),
        is_scaled(b, b2, k),
        !a.negative(),
        !b.negative(),
        a.magnitude() == 0 || pow2(53) <= a.magnitude(),
        b.magnitude() == 0 || pow2(53) <= b.magnitude(),
        a.magnitude() <= pow2(e),
        b.magnitude() <= pow2(e),
        53 <= e,
        e + 1 + k <= 2097,
    ensures
        is_scaled(a + b, a2 + b2, k),
        !(a + b).negative(),
        (a + b).magnitude() == 0 <==> a.magnitude() == 0 && b.magnitude() == 0,
        (a + b).magnitude() == 0 || pow2(53) <= (a + b).magnitude(),
        (a + b).magnitude() <= pow2(e + 1),
{
    lemma_value_scaled(a, a2, k);
    lemma_value_scaled(b, b2, k);
    let s = pow2(k) as int;
    let exact = a.value() + b.value();
    vstd::arithmetic::power2::lemma_pow2_pos(k);
    vstd::arithmetic::power2::lemma_pow2_pos(53);
    vstd::arithmetic::power2::lemma_pow2_unfold(e + 1);
    assert(a2.value() + b2.value() == exact * s) by (nonlinear_arith)
        requires
            a2.value() == a.value() * s,
            b2.value() == b.value() * s,
            exact == a.value() + b.value(),
    ;
    assert(exact > 0 ==> exact * s > 0) by (nonlinear_arith)
        requires
            s > 0,
    ;
    reveal(Double::spec_add);
    if exact == 0 {
        assert(exact * s == 0) by (nonlinear_arith)
            requires
                exact == 0,
        ;
        bounds::lemma_signed(false, 0);
        rounding::lemma_mag_nonnegative(0, 52);
        assert(0 * s == 0) by (nonlinear_arith);
    } else {
        lemma_nearest_scales(false, exact, 1, k, e + 1);
    }
}

pub(crate) proof fn lemma_root_from(k: int, n: int, inf: int) -> (r: int)
    requires
        0 <= k <= inf,
        k > 0 ==> root::square(rounding::mag(k - 1, 52) + rounding::mag(k, 52)) <= 4 * n,
        k > 0 && root::square(rounding::mag(k - 1, 52) + rounding::mag(k, 52)) == 4 * n ==> k % 2
            == 0,
    ensures
        root::is_nearest_root(r, n, 52, inf),
    decreases inf - k,
{
    let middle = root::square(rounding::mag(k, 52) + rounding::mag(k + 1, 52));
    if k == inf || 4 * n < middle || (4 * n == middle && k % 2 == 0) {
        k
    } else {
        lemma_root_from(k + 1, n, inf)
    }
}

proof fn lemma_squares_compare(a: int, b: int)
    requires
        0 <= a < b,
    ensures
        root::square(a) < root::square(b),
{
    assert(a * a < b * b) by (nonlinear_arith)
        requires
            0 <= a < b,
    ;
}

/// The pattern of a square root, and that of the root of a multiple.
pub(crate) proof fn lemma_root_scales(n: int, k: nat, e: nat)
    requires
        pow2(53) * pow2(53) <= n <= pow2(e) * pow2(e),
        53 <= e,
        e + k <= 2097,
    ensures
        ({
            let inf = patterns::infinity(52, 2047);
            let p = root::nearest_root(n, 52, inf);
            &&& 0x20_0000_0000_0000 <= p
            &&& raised(p, k) < DOUBLE_INFINITY
            &&& root::nearest_root(n * (pow2(k) * pow2(k)), 52, inf) == raised(p, k)
        }),
{
    Double::lemma_format();
    let inf = patterns::infinity(52, 2047);
    let p = lemma_root_from(0, n, inf);
    root::lemma_nearest_root_is(p, n, 52, inf);
    let q = raised(p, k);
    let s = pow2(k) as int;
    vstd::arithmetic::power2::lemma_pow2_pos(k);
    vstd::arithmetic::power2::lemma_pow2_pos(53);
    vstd::arithmetic::power2::lemma_pow2_pos(e);
    lemma_power_pattern(53);
    lemma_power_pattern(e);
    let least = power_pattern(53);
    let most = power_pattern(e);
    if p < least {
        rounding::lemma_mag_nonnegative(p, 52);
        rounding::lemma_mag_increases(p, least, 52);
        if p + 1 < least {
            rounding::lemma_mag_increases(p + 1, least, 52);
        }
        rounding::lemma_mag_nonnegative(p + 1, 52);
        lemma_squares_compare(
            rounding::mag(p, 52) + rounding::mag(p + 1, 52),
            2 * pow2(53) as int,
        );
        assert(root::square(2 * pow2(53) as int) == 4 * (pow2(53) * pow2(53))) by (nonlinear_arith)
            requires
                root::square(2 * pow2(53) as int) == (2 * pow2(53)) * (2 * pow2(53)),
        ;
        assert(false);
    }
    if most < p {
        rounding::lemma_mag_increases(most, p, 52);
        if most < p - 1 {
            rounding::lemma_mag_increases(most, p - 1, 52);
        }
        lemma_squares_compare(
            2 * pow2(e) as int,
            rounding::mag(p - 1, 52) + rounding::mag(p, 52),
        );
        assert(root::square(2 * pow2(e) as int) == 4 * (pow2(e) * pow2(e))) by (nonlinear_arith)
            requires
                root::square(2 * pow2(e) as int) == (2 * pow2(e)) * (2 * pow2(e)),
        ;
        assert(false);
    }
    assert(most + k * 0x10_0000_0000_0000 == (e + k - 51) * 0x10_0000_0000_0000) by (nonlinear_arith)
        requires
            most == (e - 51) * 0x10_0000_0000_0000,
    ;
    lemma_raised(p - 1, k);
    lemma_raised(p, k);
    lemma_raised(p + 1, k);
    let low = rounding::mag(p - 1, 52) + rounding::mag(p, 52);
    let high = rounding::mag(p, 52) + rounding::mag(p + 1, 52);
    let low2 = rounding::mag(q - 1, 52) + rounding::mag(q, 52);
    let high2 = rounding::mag(q, 52) + rounding::mag(q + 1, 52);
    assert(low2 == low * s) by (nonlinear_arith)
        requires
            rounding::mag(q - 1, 52) == rounding::mag(p - 1, 52) * s,
            rounding::mag(q, 52) == rounding::mag(p, 52) * s,
            low == rounding::mag(p - 1, 52) + rounding::mag(p, 52),
            low2 == rounding::mag(q - 1, 52) + rounding::mag(q, 52),
    ;
    assert(high2 == high * s) by (nonlinear_arith)
        requires
            rounding::mag(q, 52) == rounding::mag(p, 52) * s,
            rounding::mag(q + 1, 52) == rounding::mag(p + 1, 52) * s,
            high == rounding::mag(p, 52) + rounding::mag(p + 1, 52),
            high2 == rounding::mag(q, 52) + rounding::mag(q + 1, 52),
    ;
    let t = s * s;
    assert(t > 0) by (nonlinear_arith)
        requires
            t == s * s,
            s > 0,
    ;
    assert(root::square(low2) == root::square(low) * t) by (nonlinear_arith)
        requires
            root::square(low2) == low2 * low2,
            root::square(low) == low * low,
            low2 == low * s,
            t == s * s,
    ;
    assert(root::square(high2) == root::square(high) * t) by (nonlinear_arith)
        requires
            root::square(high2) == high2 * high2,
            root::square(high) == high * high,
            high2 == high * s,
            t == s * s,
    ;
    lemma_scaled_comparison(root::square(low), 4 * n, t);
    lemma_scaled_comparison(4 * n, root::square(high), t);
    assert(4 * n * t == 4 * (n * t)) by (nonlinear_arith);
    assert(q % 2 == p % 2) by (nonlinear_arith)
        requires
            q == p + k * 0x10_0000_0000_0000,
    ;
    root::lemma_nearest_root_is(q, n * t, 52, inf);
}

/// The square root of a multiple by an even power.
proof fn lemma_sqrt_scales(x: Double, y: Double, k: nat, f: nat)
    requires
        is_scaled(x, y, 2 * k),
        !x.negative(),
        x.magnitude() == 0 || pow2(53) <= x.magnitude(),
        x.magnitude() <= pow2(f),
        f <= 1500,
        k <= 700,
    ensures
        is_scaled(x.sqrt(), y.sqrt(), k),
        !x.sqrt().negative(),
{
    let unit = pow2(1074) as int;
    let s = pow2(k) as int;
    let inf = patterns::infinity(52, 2047);
    Double::lemma_format();
    x.lemma_order(y);
    y.lemma_order(y);
    vstd::arithmetic::power2::lemma_pow2_pos(k);
    vstd::arithmetic::power2::lemma_pow2_pos(2 * k);
    vstd::arithmetic::power2::lemma_pow2_adds(k, k);
    if x.magnitude() == 0 {
        assert(y.magnitude() == 0) by (nonlinear_arith)
            requires
                y.magnitude() == x.magnitude() * pow2(2 * k),
                x.magnitude() == 0,
        ;
        assert(0 * pow2(k) == 0) by (nonlinear_arith);
        reveal(Double::spec_sqrt);
    } else {
        assert(y.magnitude() > 0) by (nonlinear_arith)
            requires
                y.magnitude() == x.magnitude() * pow2(2 * k),
                x.magnitude() > 0,
                pow2(2 * k) > 0,
        ;
        let n = x.magnitude() * unit;
        vstd::arithmetic::power2::lemma_pow2_strictly_increases(53, 1074);
        vstd::arithmetic::power2::lemma_pow2_pos(53);
        assert(pow2(53) * pow2(53) <= n) by (nonlinear_arith)
            requires
                n == x.magnitude() * unit,
                pow2(53) <= x.magnitude(),
                pow2(53) <= unit,
                pow2(53) > 0,
        ;
        let e: nat = 1300;
        vstd::arithmetic::power2::lemma_pow2_adds(e, e);
        vstd::arithmetic::power2::lemma_pow2_adds(f, 1074);
        vstd::arithmetic::power2::lemma_pow2_strictly_increases((f + 1074) as nat, 2600);
        vstd::arithmetic::power2::lemma_pow2_pos(1074);
        assert(n <= pow2(f) * unit) by (nonlinear_arith)
            requires
                n == x.magnitude() * unit,
                x.magnitude() <= pow2(f),
                unit > 0,
        ;
        lemma_root_scales(n, k, e);
        let p = root::nearest_root(n, 52, inf);
        assert(y.magnitude() * unit == n * (s * s)) by (nonlinear_arith)
            requires
                y.magnitude() == x.magnitude() * pow2(2 * k),
                pow2(2 * k) == s * s,
                n == x.magnitude() * unit,
        ;
        bounds::lemma_signed(false, p);
        bounds::lemma_signed(false, raised(p, k));
        lemma_raised(p, k);
        reveal(Double::spec_sqrt);
    }
}

/// A square is not negative.
pub(crate) proof fn lemma_square_sign(x: Double)
    ensures
        !(x * x).negative(),
{
    reveal(Double::spec_mul);
    vstd::arithmetic::power2::lemma_pow2_pos(1074);
    bounds::lemma_nearest_signed(false, x.magnitude() * x.magnitude(), pow2(1074) as int);
}

/// The diagonal of zeros is zero.
pub(crate) proof fn lemma_hypot_of_zeros(x: Double, y: Double)
    requires
        x.pattern() == 0,
        y.pattern() == 0,
    ensures
        x.hypot(y) == (Double { bits: 0 }),
{
    let up = Double { bits: 0x6570_0000_0000_0000 };
    let down = Double { bits: 0x1A70_0000_0000_0000 };
    let zero = Double { bits: 0 };
    let a = x * up;
    let b = y * up;
    let sum = a * a + b * b;
    bounds::lemma_hypot_of_nothing(x, y);
    bounds::lemma_zero_product(x, up);
    bounds::lemma_zero_product(y, up);
    bounds::lemma_zero_product(a, a);
    bounds::lemma_zero_product(b, b);
    lemma_square_sign(a);
    lemma_square_sign(b);
    assert((a * a) == zero && (b * b) == zero);
    zero.lemma_order(zero);
    assert(sum == zero) by {
        reveal(Double::spec_add);
    }
    assert(sum.sqrt() == zero) by {
        reveal(Double::spec_sqrt);
    }
    bounds::lemma_zero_product(zero, down);
    bounds::lemma_product_sign(zero, down);
    let low = Double { bits: 0x21F0_0000_0000_0000 };
    let top = Double { bits: 0x5DF0_0000_0000_0000 };
    zero.lemma_order(low);
    zero.lemma_order(top);
}

/// The magnitudes between which no side is scaled for its square.
pub(crate) proof fn lemma_thresholds()
    ensures
        (Double { bits: 0x5DF0_0000_0000_0000 }).value() == pow2(1554),
        (Double { bits: 0x21F0_0000_0000_0000 }).value() == pow2(594),
{
    reveal(Double::magnitude);
    lemma_power_pattern(1554);
    lemma_power_pattern(594);
}

/// Where the largest of two sides is between the thresholds, nothing is scaled.
pub(crate) proof fn lemma_plain_hypot(x: Double, y: Double)
    requires
        x.is_finite(),
        y.is_finite(),
        x.magnitude() <= pow2(1554),
        y.magnitude() <= pow2(1554),
        pow2(594) <= x.magnitude() || pow2(594) <= y.magnitude(),
    ensures
        x.hypot(y) == (x * x + y * y).sqrt(),
{
    lemma_thresholds();
    x.lemma_order(x.abs());
    y.lemma_order(y.abs());
}

/// The diagonal of multiples is the multiple of the diagonal.
proof fn lemma_hypot_scales(x: Double, x2: Double, y: Double, y2: Double, k: nat, g: nat, e: nat)
    requires
        is_scaled(x, x2, k),
        is_scaled(y, y2, k),
        is_on_grid(x.magnitude(), g),
        is_on_grid(y.magnitude(), g),
        x.magnitude() <= pow2(e),
        y.magnitude() <= pow2(e),
        594 <= g,
        564 <= e <= 1280,
        e + k <= 1554,
        k <= 700,
    ensures
        is_scaled(x.hypot(y), x2.hypot(y2), k),
        !x.hypot(y).negative(),
{
    let s = pow2(k) as int;
    vstd::arithmetic::power2::lemma_pow2_pos(k);
    x.lemma_order(x2);
    y.lemma_order(y2);
    lemma_grid_least(x.magnitude(), g);
    lemma_grid_least(y.magnitude(), g);
    assert(0 * s == 0) by (nonlinear_arith);
    if x.magnitude() == 0 && y.magnitude() == 0 {
        lemma_hypot_of_zeros(x, y);
        lemma_hypot_of_zeros(x2, y2);
        let zero = Double { bits: 0 };
        zero.lemma_order(zero);
    } else {
        if 594 < g {
            vstd::arithmetic::power2::lemma_pow2_strictly_increases(594, g);
        }
        vstd::arithmetic::power2::lemma_pow2_pos(e);
        vstd::arithmetic::power2::lemma_pow2_adds(e, k);
        vstd::arithmetic::power2::lemma_pow2_strictly_increases(e, 1554);
        if e + k < 1554 {
            vstd::arithmetic::power2::lemma_pow2_strictly_increases((e + k) as nat, 1554);
        }
        lemma_scaled_bounds(x.magnitude(), s, pow2(e) as int);
        lemma_scaled_bounds(y.magnitude(), s, pow2(e) as int);
        lemma_plain_hypot(x, y);
        lemma_plain_hypot(x2, y2);
        lemma_square_scales(x, x2, k, g, e);
        lemma_square_scales(y, y2, k, g, e);
        let f = (2 * e - 1074) as nat;
        lemma_positive_sum_scales(x * x, x2 * x2, y * y, y2 * y2, 2 * k, f);
        lemma_sqrt_scales(x * x + y * y, x2 * x2 + y2 * y2, k, f + 1);
    }
}

proof fn lemma_scaled_bounds(m: int, s: int, b: int)
    requires
        0 <= m <= b,
        s >= 1,
    ensures
        m <= m * s <= b * s,
{
    assert(m <= m * s <= b * s) by (nonlinear_arith)
        requires
            0 <= m <= b,
            s >= 1,
    ;
}

/// The quotient of multiples is the quotient.
proof fn lemma_ratio_stays(a: Double, a2: Double, b: Double, b2: Double, k: nat)
    requires
        is_scaled(a, a2, k),
        is_scaled(b, b2, k),
        b.magnitude() != 0,
    ensures
        a2 / b2 == a / b,
{
    Double::lemma_format();
    let s = pow2(k) as int;
    let unit = pow2(1074) as int;
    let inf = patterns::infinity(52, 2047);
    a.lemma_order(a2);
    b.lemma_order(b2);
    vstd::arithmetic::power2::lemma_pow2_pos(k);
    assert(b2.magnitude() > 0) by (nonlinear_arith)
        requires
            b2.magnitude() == b.magnitude() * s,
            b.magnitude() > 0,
            s > 0,
    ;
    let n = a.magnitude() * unit;
    let n2 = a2.magnitude() * unit;
    assert(n * b2.magnitude() == n2 * b.magnitude()) by (nonlinear_arith)
        requires
            n == a.magnitude() * unit,
            n2 == a2.magnitude() * unit,
            a2.magnitude() == a.magnitude() * s,
            b2.magnitude() == b.magnitude() * s,
    ;
    rounding::law_rounding_keeps_order(n, b.magnitude(), n2, b2.magnitude(), 52, inf);
    rounding::law_rounding_keeps_order(n2, b2.magnitude(), n, b.magnitude(), 52, inf);
    reveal(Double::spec_div);
    reveal(Double::nearest);
}

/// A coordinate that is zero or between `2^-120` and `2^120`, the sign aside.
pub open spec fn is_moderate(x: Double) -> bool {
    x.magnitude() == 0 || pow2(954) <= x.magnitude() <= pow2(1194)
}

/// `q` is `p` times `2^k`, and no coordinate of either is next to the ends of the range.
pub open spec fn is_scaled_point(p: Point, q: Point, k: nat) -> bool {
    &&& is_scaled(p.x, q.x, k) && is_moderate(p.x) && is_moderate(q.x)
    &&& is_scaled(p.y, q.y, k) && is_moderate(p.y) && is_moderate(q.y)
}

/// `other` has the points of `points`, each times `2^k`.
pub open spec fn are_scaled_points(points: Seq<Point>, other: Seq<Point>, k: nat) -> bool {
    &&& points.len() == other.len()
    &&& points.len() <= pow2(53)
    &&& forall|i: int| 0 <= i < points.len() ==> is_scaled_point(#[trigger] points[i], other[i], k)
}

/// `other` has the regions of `landmarks`, all points times `2^k`.
pub open spec fn are_scaled_regions(
    landmarks: Seq<RegionView>,
    other: Seq<RegionView>,
    k: nat,
) -> bool {
    &&& landmarks.len() == other.len()
    &&& forall|i: int|
        0 <= i < landmarks.len() ==> {
            &&& (#[trigger] landmarks[i]).kind == other[i].kind
            &&& are_scaled_points(landmarks[i].points, other[i].points, k)
        }
}

/// A number and its multiple, on a grid and below a bound.
spec fn fits(x: Double, y: Double, k: nat, g: nat, e: nat) -> bool {
    &&& is_scaled(x, y, k)
    &&& is_on_grid(x.magnitude(), g)
    &&& x.magnitude() <= pow2(e)
}

spec fn point_fits(p: Point, q: Point, k: nat, g: nat, e: nat) -> bool {
    fits(p.x, q.x, k, g, e) && fits(p.y, q.y, k, g, e)
}

proof fn lemma_fits_looser(x: Double, y: Double, k: nat, g: nat, e: nat, f: nat, h: nat)
    requires
        fits(x, y, k, g, e),
        f <= g,
        e <= h,
    ensures
        fits(x, y, k, f, h),
{
    lemma_finer_grid(x.magnitude(), g, f);
    if e < h {
        vstd::arithmetic::power2::lemma_pow2_strictly_increases(e, h);
    }
}

/// A small number of units of a power of two is the value of a pattern.
pub(crate) proof fn lemma_representable(c: int, h: nat) -> (p: int)
    requires
        0 <= c <= pow2(53),
        h <= 1300,
    ensures
        0 <= p < DOUBLE_INFINITY,
        rounding::mag(p, 52) == c * pow2(h),
{
    patterns::lemma_small_powers(52);
    lemma_representable_below(c, h)
}

proof fn lemma_representable_below(c: int, h: nat) -> (p: int)
    requires
        0 <= c <= pow2(53),
        h <= 1300,
    ensures
        0 <= p <= (h + 2) * 0x10_0000_0000_0000,
        rounding::mag(p, 52) == c * pow2(h),
    decreases h,
{
    patterns::lemma_small_powers(52);
    vstd::arithmetic::power2::lemma_pow2_unfold(53);
    if c == pow2(53) {
        let p: int = (h as int + 1) * 0x10_0000_0000_0000 + 0x10_0000_0000_0000;
        rounding::lemma_mag_of_split(p, pow2(52) as int, h as int + 1, 52);
        vstd::arithmetic::power2::lemma_pow2_unfold((h + 1) as nat);
        assert(pow2(52) * pow2((h + 1) as nat) == c * pow2(h)) by (nonlinear_arith)
            requires
                pow2((h + 1) as nat) == 2 * pow2(h),
                c == 2 * pow2(52),
        ;
        p
    } else if c >= pow2(52) || h == 0 {
        let p = h * 0x10_0000_0000_0000 + c;
        rounding::lemma_mag_of_split(p, c, h as int, 52);
        p
    } else {
        vstd::arithmetic::power2::lemma_pow2_unfold(h);
        let p = lemma_representable_below(2 * c, (h - 1) as nat);
        assert(2 * c * pow2((h - 1) as nat) == c * pow2(h)) by (nonlinear_arith)
            requires
                pow2(h) == 2 * pow2((h - 1) as nat),
        ;
        p
    }
}

proof fn lemma_zero_scales(k: nat, g: nat, e: nat)
    ensures
        fits(Double::integer(0), Double::integer(0), k, g, e),
        Double::integer(0).magnitude() == 0,
{
    let zero = Double { bits: 0 };
    bounds::lemma_zero();
    zero.lemma_order(zero);
    assert(0 * pow2(k) == 0) by (nonlinear_arith);
    lemma_on_grid(0, g, g);
    assert(0 * pow2(g) == 0) by (nonlinear_arith);
}

/// One more coordinate is added to a sum of `i` coordinates.
proof fn lemma_coordinate_added(
    sum: Double,
    sum2: Double,
    x: Double,
    x2: Double,
    k: nat,
    i: int,
)
    requires
        is_scaled(sum, sum2, k),
        is_on_grid(sum.magnitude(), 902),
        sum.magnitude() <= i * pow2(1194),
        is_scaled(x, x2, k),
        is_moderate(x),
        0 <= i < pow2(53),
        k <= 240,
    ensures
        is_scaled(sum + x, sum2 + x2, k),
        is_on_grid((sum + x).magnitude(), 902),
        (sum + x).magnitude() <= (i + 1) * pow2(1194),
{
    vstd::arithmetic::power2::lemma_pow2_pos(1194);
    lemma_large_on_grid(x, 954);
    let limit = lemma_representable(i + 1, 1194);
    vstd::arithmetic::power2::lemma_pow2_adds(53, 1194);
    assert((i + 1) * pow2(1194) == i * pow2(1194) + pow2(1194)) by (nonlinear_arith);
    assert((i + 1) * pow2(1194) <= pow2(53) * pow2(1194)) by (nonlinear_arith)
        requires
            i + 1 <= pow2(53),
            pow2(1194) > 0,
    ;
    lemma_sum_scales(sum, sum2, x, x2, k, 902, 1247, limit);
}

proof fn lemma_point_sum_scales(points: Seq<Point>, other: Seq<Point>, k: nat, i: int)
    requires
        are_scaled_points(points, other, k),
        0 <= i <= points.len(),
        k <= 240,
    ensures
        ({
            let a = point_sum(points, i);
            let b = point_sum(other, i);
            &&& is_scaled(a.x, b.x, k) && is_on_grid(a.x.magnitude(), 902) && a.x.magnitude() <= i
                * pow2(1194)
            &&& is_scaled(a.y, b.y, k) && is_on_grid(a.y.magnitude(), 902) && a.y.magnitude() <= i
                * pow2(1194)
        }),
    decreases i,
{
    if i <= 0 {
        lemma_zero_scales(k, 902, 53);
        assert(0 * pow2(1194) == 0) by (nonlinear_arith);
    } else {
        lemma_point_sum_scales(points, other, k, i - 1);
        let a = point_sum(points, i - 1);
        let b = point_sum(other, i - 1);
        assert(is_scaled_point(points[i - 1], other[i - 1], k));
        lemma_coordinate_added(a.x, b.x, points[i - 1].x, other[i - 1].x, k, i - 1);
        lemma_coordinate_added(a.y, b.y, points[i - 1].y, other[i - 1].y, k, i - 1);
    }
}

/// How many there are of something, as a number.
pub(crate) proof fn lemma_count(n: u64)
    requires
        n > 0,
    ensures
        Double::integer(n).is_finite(),
        pow2(1074) <= Double::integer(n).magnitude() <= pow2(1138),
{
    reveal(Double::nearest);
    let unit = pow2(1074) as int;
    vstd::arithmetic::power2::lemma_pow2_pos(1074);
    vstd::arithmetic::power2::lemma2_to64();
    vstd::arithmetic::power2::lemma_pow2_adds(64, 1074);
    lemma_power_pattern(1074);
    lemma_power_pattern(1138);
    assert(unit <= n * unit <= pow2(64) * unit) by (nonlinear_arith)
        requires
            1 <= n <= pow2(64),
            unit > 0,
    ;
    bounds::lemma_rounds_above(n * unit, 1, power_pattern(1074));
    bounds::lemma_rounds_below(n * unit, 1, power_pattern(1138));
    let p = patterns::rounded(n * unit, 1, 52, 2047);
    bounds::lemma_signed(false, p);
    if power_pattern(1074) < p {
        rounding::lemma_mag_increases(power_pattern(1074), p, 52);
    }
    if p < power_pattern(1138) {
        rounding::lemma_mag_increases(p, power_pattern(1138), 52);
    }
}

proof fn lemma_mean_scales(points: Seq<Point>, other: Seq<Point>, k: nat)
    requires
        are_scaled_points(points, other, k),
        points.len() <= u64::MAX,
        k <= 240,
    ensures
        match (spec_mean(points), spec_mean(other)) {
            (Some(p), Some(q)) => point_fits(p, q, k, 786, 1247),
            (None, None) => true,
            _ => false,
        },
{
    if points.len() > 0 {
        let n = points.len() as int;
        lemma_point_sum_scales(points, other, k, n);
        lemma_count(n as u64);
        vstd::arithmetic::power2::lemma_pow2_adds(53, 1194);
        vstd::arithmetic::power2::lemma_pow2_pos(1194);
        assert(n * pow2(1194) <= pow2(53) * pow2(1194)) by (nonlinear_arith)
            requires
                n <= pow2(53),
                pow2(1194) > 0,
        ;
        let a = point_sum(points, n);
        let b = point_sum(other, n);
        let count = Double::integer(n as u64);
        lemma_quotient_scales(a.x, b.x, count, k, 902, 1247);
        lemma_quotient_scales(a.y, b.y, count, k, 902, 1247);
    }
}

/// The difference of multiples.
proof fn lemma_difference_scales(
    a: Double,
    a2: Double,
    b: Double,
    b2: Double,
    k: nat,
    g: nat,
    e: nat,
)
    requires
        fits(a, a2, k, g, e),
        fits(b, b2, k, g, e),
        53 <= g,
        53 <= e <= 1300,
        k <= 240,
    ensures
        fits(a - b, a2 - b2, k, g, e + 1),
{
    lemma_negated_scales(b, b2, k);
    lemma_power_pattern(e + 1);
    vstd::arithmetic::power2::lemma_pow2_unfold(e + 1);
    lemma_sum_scales(a, a2, b.negated(), b2.negated(), k, g, e + 1, power_pattern(e + 1));
}

proof fn lemma_distance_scales(p: Point, p2: Point, q: Point, q2: Point, k: nat, g: nat, e: nat)
    requires
        point_fits(p, p2, k, g, e),
        point_fits(q, q2, k, g, e),
        594 <= g,
        600 <= e <= 1279,
        k <= 240,
    ensures
        is_scaled(p.distance(q), p2.distance(q2), k),
        !p.distance(q).negative(),
{
    lemma_difference_scales(p.x, p2.x, q.x, q2.x, k, g, e);
    lemma_difference_scales(p.y, p2.y, q.y, q2.y, k, g, e);
    lemma_hypot_scales(p.x - q.x, p2.x - q2.x, p.y - q.y, p2.y - q2.y, k, g, e + 1);
}

proof fn lemma_middle_scales(a: Double, a2: Double, b: Double, b2: Double, k: nat)
    requires
        fits(a, a2, k, 786, 1247),
        fits(b, b2, k, 786, 1247),
        k <= 240,
    ensures
        fits((a + b) / Double::integer(2), (a2 + b2) / Double::integer(2), k, 670, 1248),
{
    lemma_power_pattern(1248);
    vstd::arithmetic::power2::lemma_pow2_unfold(1248);
    lemma_sum_scales(a, a2, b, b2, k, 786, 1248, power_pattern(1248));
    lemma_count(2);
    lemma_quotient_scales(a + b, a2 + b2, Double::integer(2), k, 786, 1248);
}

proof fn lemma_midpoint_scales(p: Point, p2: Point, q: Point, q2: Point, k: nat)
    requires
        point_fits(p, p2, k, 786, 1247),
        point_fits(q, q2, k, 786, 1247),
        k <= 240,
    ensures
        point_fits(midpoint(p, q), midpoint(p2, q2), k, 670, 1248),
{
    lemma_middle_scales(p.x, p2.x, q.x, q2.x, k);
    lemma_middle_scales(p.y, p2.y, q.y, q2.y, k);
}

proof fn lemma_moderate_fits(p: Point, q: Point, k: nat)
    requires
        is_scaled_point(p, q, k),
    ensures
        point_fits(p, q, k, 902, 1194),
{
    vstd::arithmetic::power2::lemma_pow2_pos(1194);
    lemma_large_on_grid(p.x, 954);
    lemma_large_on_grid(p.y, 954);
}

/// A number and its multiple, both missing or both there and not negative.
spec fn optional_scaled(x: Option<Double>, y: Option<Double>, k: nat) -> bool {
    match (x, y) {
        (Some(x), Some(y)) => is_scaled(x, y, k) && !x.negative(),
        (None, None) => true,
        _ => false,
    }
}

proof fn lemma_widest_scales(points: Seq<Point>, other: Seq<Point>, k: nat, i: int, j: int)
    requires
        are_scaled_points(points, other, k),
        i < points.len(),
        j <= points.len(),
        k <= 240,
    ensures
        optional_scaled(widest(points, i, j), widest(other, i, j), k),
    decreases i + 1, j,
{
    if i < 0 {
    } else if j <= i + 1 {
        lemma_widest_scales(points, other, k, i - 1, points.len() as int);
    } else {
        lemma_widest_scales(points, other, k, i, j - 1);
        assert(is_scaled_point(points[i], other[i], k));
        assert(is_scaled_point(points[j - 1], other[j - 1], k));
        lemma_moderate_fits(points[i], other[i], k);
        lemma_moderate_fits(points[j - 1], other[j - 1], k);
        lemma_distance_scales(points[i], other[i], points[j - 1], other[j - 1], k, 902, 1194);
        let x = points[i].distance(points[j - 1]);
        let y = other[i].distance(other[j - 1]);
        match (widest(points, i, j - 1), widest(other, i, j - 1)) {
            (Some(a), Some(b)) => {
                lemma_value_scaled(x, y, k);
                lemma_value_scaled(a, b, k);
                vstd::arithmetic::power2::lemma_pow2_pos(k);
                lemma_scaled_comparison(x.value(), a.value(), pow2(k) as int);
            },
            _ => {},
        }
    }
}

proof fn lemma_region_scales(
    landmarks: Seq<RegionView>,
    other: Seq<RegionView>,
    kind: LandmarkKind,
    from: int,
    k: nat,
)
    requires
        are_scaled_regions(landmarks, other, k),
        0 <= from,
    ensures
        match (region_from(landmarks, kind, from), region_from(other, kind, from)) {
            (Some(a), Some(b)) => are_scaled_points(a, b, k),
            (None, None) => true,
            _ => false,
        },
    decreases landmarks.len() - from,
{
    if from < landmarks.len() {
        assert(landmarks[from].kind == other[from].kind);
        if landmarks[from].kind != kind {
            lemma_region_scales(landmarks, other, kind, from + 1, k);
        }
    }
}

proof fn lemma_center_scales(
    landmarks: Seq<RegionView>,
    other: Seq<RegionView>,
    kind: LandmarkKind,
    k: nat,
)
    requires
        are_scaled_regions(landmarks, other, k),
        k <= 240,
    ensures
        match (spec_region_center(landmarks, kind), spec_region_center(other, kind)) {
            (Some(p), Some(q)) => point_fits(p, q, k, 786, 1247),
            (None, None) => true,
            _ => false,
        },
{
    lemma_region_scales(landmarks, other, kind, 0, k);
    vstd::arithmetic::power2::lemma2_to64();
    vstd::arithmetic::power2::lemma_pow2_strictly_increases(53, 64);
    match (spec_region(landmarks, kind), spec_region(other, kind)) {
        (Some(a), Some(b)) => {
            lemma_mean_scales(a, b, k);
        },
        _ => {},
    }
}

/// A proportion does not change where both sides are multiplied by `2^k`.
proof fn lemma_safe_ratio_stays(a: Double, a2: Double, b: Double, b2: Double, k: nat)
    requires
        is_scaled(a, a2, k),
        is_scaled(b, b2, k),
        epsilon().less(b.abs()),
    ensures
        safe_ratio(a2, b2) == safe_ratio(a, b),
{
    b.lemma_order(b.abs());
    b2.lemma_order(b2.abs());
    b.lemma_order(b2);
    epsilon().lemma_order(b);
    bounds::lemma_ratio_positive(1, 4503599627370496);
    vstd::arithmetic::power2::lemma_pow2_pos(k);
    lemma_scaled_bounds(b.magnitude(), pow2(k) as int, b.magnitude());
    lemma_ratio_stays(a, a2, b, b2, k);
}

/// The measurements do not depend on scale: where the box and all points are multiplied by one
/// power of two, they are the same, and the same ones are missing.
pub proof fn law_measurements_ignore_scale(
    bounds: BoundingBox,
    landmarks: Seq<RegionView>,
    scaled: BoundingBox,
    other: Seq<RegionView>,
    k: nat,
)
    requires
        k <= 240,
        is_scaled(bounds.width, scaled.width, k),
        is_scaled(bounds.height, scaled.height, k),
        epsilon().less(bounds.width.abs()),
        epsilon().less(bounds.height.abs()),
        are_scaled_regions(landmarks, other, k),
    ensures
        FaceGeometry::spec_measurements(scaled, other) == FaceGeometry::spec_measurements(
            bounds,
            landmarks,
        ),
{
    lemma_safe_ratio_stays(bounds.height, scaled.height, bounds.width, scaled.width, k);
    lemma_center_scales(landmarks, other, LandmarkKind::LeftEye, k);
    lemma_center_scales(landmarks, other, LandmarkKind::RightEye, k);
    lemma_center_scales(landmarks, other, LandmarkKind::OuterLips, k);
    lemma_region_scales(landmarks, other, LandmarkKind::OuterLips, 0, k);
    match (
        spec_region_center(landmarks, LandmarkKind::LeftEye),
        spec_region_center(landmarks, LandmarkKind::RightEye),
    ) {
        (Some(left), Some(right)) => {
            let left2 = spec_region_center(other, LandmarkKind::LeftEye).unwrap();
            let right2 = spec_region_center(other, LandmarkKind::RightEye).unwrap();
            lemma_distance_scales(left, left2, right, right2, k, 786, 1247);
            lemma_safe_ratio_stays(
                left.distance(right),
                left2.distance(right2),
                bounds.width,
                scaled.width,
                k,
            );
            match spec_region_center(landmarks, LandmarkKind::OuterLips) {
                Some(mouth) => {
                    let mouth2 = spec_region_center(other, LandmarkKind::OuterLips).unwrap();
                    let eyes = midpoint(left, right);
                    let eyes2 = midpoint(left2, right2);
                    lemma_midpoint_scales(left, left2, right, right2, k);
                    lemma_fits_looser(mouth.x, mouth2.x, k, 786, 1247, 670, 1248);
                    lemma_fits_looser(mouth.y, mouth2.y, k, 786, 1247, 670, 1248);
                    lemma_distance_scales(eyes, eyes2, mouth, mouth2, k, 670, 1248);
                    lemma_safe_ratio_stays(
                        eyes.distance(mouth),
                        eyes2.distance(mouth2),
                        bounds.height,
                        scaled.height,
                        k,
                    );
                },
                None => {},
            }
        },
        _ => {},
    }
    match (
        spec_region(landmarks, LandmarkKind::OuterLips),
        spec_region(other, LandmarkKind::OuterLips),
    ) {
        (Some(a), Some(b)) => {
            lemma_widest_scales(a, b, k, a.len() - 1, a.len() as int);
            match (
                spec_region_diameter(landmarks, LandmarkKind::OuterLips),
                spec_region_diameter(other, LandmarkKind::OuterLips),
            ) {
                (Some(x), Some(y)) => {
                    lemma_safe_ratio_stays(x, y, bounds.width, scaled.width, k);
                },
                _ => {},
            }
        },
        _ => {},
    }
}

} // verus!
