//! Measurements of a face and of its image under any scaling and shift agree up to rounding.

use vstd::prelude::*;
use vstd::arithmetic::power2::pow2;
use crate::bounds;
use crate::bounds::is_within;
use crate::double::Double;
use crate::lengths;
use crate::lengths::parts;
use crate::model;
use crate::model::{
    epsilon, midpoint, point_sum, region_from, safe_ratio, spec_mean, spec_region,
    spec_region_diameter, widest, BoundingBox, FaceGeometry, LandmarkKind, Point, RegionView,
};
use crate::patterns;
use crate::reals;
use crate::reals::{is_near_root, is_small};
use crate::rounding;
use crate::scaling;

verus! {

/// A double as a number, in units of the smallest positive one.
pub open spec fn units(x: Double) -> real {
    x.value() as real
}

/// The numbers that a face's extent may be, and how many points a region may have.
pub open spec fn is_scale(extent: int, count: int) -> bool {
    &&& pow2(1022) <= extent <= pow2(1474)
    &&& 1 <= count <= 0x1_0000_0000
}

/// What one rounding of a sum of `2 * count` coordinates loses at most.
pub open spec fn grain(extent: int, count: int) -> real {
    (2 * (count * extent)) as real / parts() as real
}

/// A finite coordinate within the extent of a face.
pub open spec fn is_inside(x: Double, extent: int) -> bool {
    x.is_finite() && x.magnitude() <= extent
}

/// One coordinate of points.
pub open spec fn along(points: Seq<Point>, horizontal: bool) -> Seq<Double> {
    points.map_values(
        |point: Point|
            if horizontal {
                point.x
            } else {
                point.y
            },
    )
}

/// The exact sum of the first `k` numbers.
pub open spec fn exact_sum(xs: Seq<Double>, k: int) -> int
    decreases k,
{
    if k <= 0 {
        0
    } else {
        exact_sum(xs, k - 1) + xs[k - 1].value()
    }
}

/// The sum of the first `k` numbers, rounded at each step.
spec fn running_sum(xs: Seq<Double>, k: int) -> Double
    decreases k,
{
    if k <= 0 {
        Double::integer(0)
    } else {
        running_sum(xs, k - 1) + xs[k - 1]
    }
}

proof fn lemma_running_sum(points: Seq<Point>, k: int)
    requires
        0 <= k <= points.len(),
    ensures
        point_sum(points, k).x == running_sum(along(points, true), k),
        point_sum(points, k).y == running_sum(along(points, false), k),
    decreases k,
{
    if k > 0 {
        lemma_running_sum(points, k - 1);
    }
}

/// The sizes that the bounds of sums come to.
proof fn lemma_budget(extent: int, count: int)
    requires
        is_scale(extent, count),
    ensures
        0 < extent,
        2 * extent <= 2 * (count * extent) <= 0x2_0000_0000 * extent,
        2 * (count * extent) <= pow2(1507),
        0x4000_0000_0000_0000 <= extent,
{
    vstd::arithmetic::power2::lemma2_to64();
    vstd::arithmetic::power2::lemma2_to64_rest();
    vstd::arithmetic::power2::lemma_pow2_strictly_increases(62, 1022);
    assert(pow2(62) == 0x4000_0000_0000_0000);
    bounds::lemma_product_order(1, count, extent);
    bounds::lemma_product_order(count, 0x1_0000_0000, extent);
    vstd::arithmetic::power2::lemma_pow2_adds(33, 1474);
    assert(pow2(33) == 0x2_0000_0000);
    assert(0x2_0000_0000 * extent <= pow2(33) * pow2(1474)) by (nonlinear_arith)
        requires
            extent <= pow2(1474),
            pow2(33) == 0x2_0000_0000,
    ;
}

/// A running sum is near the exact one.
proof fn lemma_sum_far(xs: Seq<Double>, k: int, extent: int, count: int)
    requires
        is_scale(extent, count),
        0 <= k <= xs.len() <= count,
        forall|i: int| 0 <= i < xs.len() ==> is_inside(#[trigger] xs[i], extent),
    ensures
        ({
            let sum = running_sum(xs, k);
            let exact = exact_sum(xs, k);
            let budget = 2 * (count * extent);
            &&& sum.is_finite()
            &&& -(k * budget) <= parts() * (sum.value() - exact) <= k * budget
            &&& -(k * extent) <= exact <= k * extent
            &&& -budget <= sum.value() <= budget
        }),
    decreases k,
{
    let budget = 2 * (count * extent);
    lemma_budget(extent, count);
    if k <= 0 {
        bounds::lemma_zero();
        let zero = Double { bits: 0 };
        zero.lemma_order(zero);
    } else {
        lemma_sum_far(xs, k - 1, extent, count);
        let before = running_sum(xs, k - 1);
        let x = xs[k - 1];
        let sum = before + x;
        assert(is_inside(x, extent));
        x.lemma_order(before);
        bounds::lemma_sum_within(before, x, 1507);
        bounds::lemma_sum_error(before, x);
        lengths::lemma_parts();
        let exact = before.value() + x.value();
        let error = sum.value() - exact;
        let past = before.value() - exact_sum(xs, k - 1);
        assert(pow2(53) * error == parts() * error) by (nonlinear_arith)
            requires
                pow2(53) == parts(),
        ;
        bounds::lemma_product_order(k - 1, 0x1_0000_0000, budget);
        bounds::lemma_product_order(k, 0x1_0000_0000, budget);
        bounds::lemma_product_order(k, count, extent);
        assert((k - 1) * budget == k * budget - budget && (k - 1) * extent == k * extent - extent)
            by (nonlinear_arith);
        assert(parts() * (sum.value() - exact_sum(xs, k)) == parts() * error + parts() * past)
            by (nonlinear_arith)
            requires
                sum.value() - exact_sum(xs, k) == error + past,
        ;
        assert(-budget <= exact <= budget);
        assert(-budget <= parts() * error <= budget);
    }
}

/// A small integer is a double.
proof fn lemma_integer_exact(n: int)
    requires
        0 < n <= 0x1_0000_0000,
    ensures
        Double::integer(n as u64).is_finite(),
        !Double::integer(n as u64).negative(),
        Double::integer(n as u64).magnitude() == n * pow2(1074),
{
    lengths::lemma_parts();
    reveal(Double::nearest);
    let p = scaling::lemma_representable(n, 1074);
    bounds::lemma_exact(p);
    bounds::lemma_signed(false, p);
}

/// A quotient by a small integer is near the exact one.
proof fn lemma_quotient_far(x: Double, n: int)
    requires
        is_within(x, 1507),
        0 < n <= 0x1_0000_0000,
    ensures
        ({
            let r = x / Double::integer(n as u64);
            let size = if x.negative() {
                -x.value()
            } else {
                x.value()
            };
            &&& is_within(r, 1507)
            &&& -(size + 0x10_0000_0000_0000 * n) <= parts() * (r.value() * n - x.value()) <= size
                + 0x10_0000_0000_0000 * n
            &&& size >= 0
        }),
{
    let count = Double::integer(n as u64);
    let r = x / count;
    let unit = pow2(1074) as int;
    let d = n * unit;
    let a = x.magnitude() * unit;
    lemma_integer_exact(n);
    lengths::lemma_parts();
    x.lemma_order(count);
    vstd::arithmetic::power2::lemma_pow2_pos(1074);
    vstd::arithmetic::power2::lemma_pow2_pos(1507);
    assert(d >= unit) by (nonlinear_arith)
        requires
            d == n * unit,
            n >= 1,
            unit > 0,
    ;
    assert(a <= pow2(1507) * d) by (nonlinear_arith)
        requires
            a == x.magnitude() * unit,
            0 <= x.magnitude() <= pow2(1507),
            0 < unit <= d,
    ;
    assert(a >= 0) by (nonlinear_arith)
        requires
            a == x.magnitude() * unit,
            x.magnitude() >= 0,
            unit > 0,
    ;
    bounds::lemma_nearest_within(x.negative(), a, d, 1507);
    let k = patterns::rounded(a, d, 52, 2047);
    Double::lemma_format();
    rounding::lemma_nearest_exists(a, d, 52, patterns::infinity(52, 2047));
    bounds::lemma_signed(x.negative(), k);
    assert(r == Double::signed(x.negative(), k)) by {
        reveal(Double::spec_div);
        reveal(Double::nearest);
    }
    assert(Double::nearest(x.negative(), a, d) == r) by {
        reveal(Double::nearest);
    }
    bounds::lemma_rounding_error(a, d);
    let m = r.magnitude();
    let s = x.magnitude();
    let g = m * n - s;
    let bound = s + 0x10_0000_0000_0000 * n;
    assert(m * d - a == g * unit) by (nonlinear_arith)
        requires
            d == n * unit,
            a == s * unit,
            g == m * n - s,
    ;
    assert(pow2(53) * (g * unit) == (parts() * g) * unit) by (nonlinear_arith)
        requires
            pow2(53) == parts(),
    ;
    assert(a + pow2(52) * d == bound * unit) by (nonlinear_arith)
        requires
            a == s * unit,
            d == n * unit,
            pow2(52) == 0x10_0000_0000_0000,
            bound == s + 0x10_0000_0000_0000 * n,
    ;
    assert(parts() * g <= bound) by (nonlinear_arith)
        requires
            (parts() * g) * unit <= bound * unit,
            unit > 0,
    ;
    assert(-bound <= parts() * g) by (nonlinear_arith)
        requires
            -(bound * unit) <= (parts() * g) * unit,
            unit > 0,
    ;
    assert((-m) * n - (-s) == -g) by (nonlinear_arith)
        requires
            g == m * n - s,
    ;
    assert(parts() * (-g) == -(parts() * g)) by (nonlinear_arith);
}

/// The exact mean of some numbers.
pub open spec fn exact_mean(xs: Seq<Double>) -> real {
    exact_sum(xs, xs.len() as int) as real / xs.len() as int as real
}

/// A computed mean is near the exact one.
proof fn lemma_mean_far(xs: Seq<Double>, extent: int, count: int)
    requires
        is_scale(extent, count),
        0 < xs.len() <= count,
        forall|i: int| 0 <= i < xs.len() ==> is_inside(#[trigger] xs[i], extent),
    ensures
        ({
            let n = xs.len() as int;
            let mean = running_sum(xs, n) / Double::integer(n as u64);
            &&& is_inside(mean, 2 * extent)
            &&& is_small(units(mean) - exact_mean(xs), 3real * grain(extent, count))
        }),
{
    let n = xs.len() as int;
    let sum = running_sum(xs, n);
    let mean = sum / Double::integer(n as u64);
    let exact = exact_sum(xs, n);
    let budget = 2 * (count * extent);
    let q = parts();
    lemma_budget(extent, count);
    lemma_sum_far(xs, n, extent, count);
    sum.lemma_order(sum);
    lemma_quotient_far(sum, n);
    bounds::lemma_product_order(1, n, budget);
    bounds::lemma_product_order(0x10_0000_0000_0000, budget, n);
    let v = mean.value();
    assert(n * budget == budget * n) by (nonlinear_arith);
    let g = v * n - exact;
    assert(q * g == q * (v * n - sum.value()) + q * (sum.value() - exact)) by (nonlinear_arith)
        requires
            g == (v * n - sum.value()) + (sum.value() - exact),
    ;
    assert(-(3 * (n * budget)) <= q * g <= 3 * (n * budget));
    // no farther out than twice the extent
    bounds::lemma_product_order(budget, 0x2_0000_0000 * extent, n);
    assert((0x2_0000_0000 * extent) * n == 0x2_0000_0000 * (n * extent)) by (nonlinear_arith);
    assert(q * (v * n) == q * g + q * exact) by (nonlinear_arith)
        requires
            g == v * n - exact,
    ;
    assert(-(2 * (n * extent)) <= v * n <= 2 * (n * extent));
    assert(-(2 * extent) <= v <= 2 * extent) by (nonlinear_arith)
        requires
            -(2 * (n * extent)) <= v * n <= 2 * (n * extent),
            n > 0,
    ;
    mean.lemma_order(mean);
    // as real numbers
    let c = grain(extent, count);
    let nr = n as real;
    let qr = q as real;
    let middle = exact_mean(xs);
    reals::lemma_quotient(exact as real, nr);
    reals::lemma_quotient(budget as real, qr);
    reals::lemma_integer_product(v, n);
    reals::lemma_integer_product(q, g);
    reals::lemma_integer_product(n, budget);
    reals::lemma_distributes(units(mean), middle, nr);
    let far = (units(mean) - middle) * nr;
    assert(far == g as real);
    reals::lemma_associates(c, qr, nr);
    reals::lemma_associates(nr, c, qr);
    reals::lemma_associates(3real, c, nr);
    assert(nr * (budget as real) == (nr * c) * qr);
    reals::lemma_associates(far, qr, far);
    reals::lemma_associates(3real, nr * c, qr);
    assert((3real * (nr * c)) * qr == 3real * (nr * (budget as real)));
    reals::lemma_cancels(far, 3real * (nr * c), qr);
    assert((-far) * qr == -(far * qr)) by (nonlinear_arith);
    reals::lemma_cancels(-far, 3real * (nr * c), qr);
    reals::lemma_associates(nr, c, nr);
    assert(3real * (nr * c) == (3real * c) * nr);
    reals::lemma_cancels(units(mean) - middle, 3real * c, nr);
    assert((-(units(mean) - middle)) * nr == -far) by (nonlinear_arith)
        requires
            far == (units(mean) - middle) * nr,
    ;
    reals::lemma_cancels(-(units(mean) - middle), 3real * c, nr);
}

/// The extent in grains.
proof fn lemma_grain(extent: int, count: int)
    requires
        is_scale(extent, count),
    ensures
        ({
            let c = grain(extent, count);
            &&& 2real * (extent as real) <= c * (parts() as real)
            &&& c * (parts() as real) <= 0x2_0000_0000real * (extent as real)
            &&& c * (parts() as real) == (2 * (count * extent)) as real
            &&& c >= 2real
            &&& c <= extent as real
        }),
{
    let c = grain(extent, count);
    let qr = parts() as real;
    lemma_budget(extent, count);
    reals::lemma_quotient((2 * (count * extent)) as real, qr);
    assert(2real * qr <= c * qr);
    reals::lemma_cancels(2real, c, qr);
    reals::lemma_product_order(0x2_0000_0000real, qr, extent as real);
    reals::lemma_associates(qr, extent as real, qr);
    assert(c * qr <= (extent as real) * qr);
    reals::lemma_cancels(c, extent as real, qr);
}

/// The error of a sum or difference, in grains.
proof fn lemma_sum_grains(a: Double, b: Double, extent: int, count: int)
    requires
        is_scale(extent, count),
        is_inside(a, 4 * extent),
        is_inside(b, 4 * extent),
    ensures
        is_inside(a + b, 9 * extent),
        is_small(units(a + b) - (units(a) + units(b)), 4real * grain(extent, count)),
        is_inside(a - b, 9 * extent),
        is_small(units(a - b) - (units(a) - units(b)), 4real * grain(extent, count)),
{
    lemma_sum_grains_once(a, b, extent, count);
    b.lemma_order(b.negated());
    lemma_sum_grains_once(a, b.negated(), extent, count);
}

proof fn lemma_sum_grains_once(a: Double, b: Double, extent: int, count: int)
    requires
        is_scale(extent, count),
        is_inside(a, 4 * extent),
        is_inside(b, 4 * extent),
    ensures
        is_inside(a + b, 9 * extent),
        is_small(units(a + b) - (units(a) + units(b)), 4real * grain(extent, count)),
{
    lemma_budget(extent, count);
    lemma_grain(extent, count);
    lengths::lemma_parts();
    a.lemma_order(b);
    vstd::arithmetic::power2::lemma_pow2_adds(2, 1474);
    vstd::arithmetic::power2::lemma2_to64();
    bounds::lemma_sum_within(a, b, 1476);
    bounds::lemma_sum_error(a, b);
    let s = a + b;
    s.lemma_order(s);
    let error = s.value() - (a.value() + b.value());
    assert(pow2(53) * error == parts() * error) by (nonlinear_arith)
        requires
            pow2(53) == parts(),
    ;
    let c = grain(extent, count);
    let qr = parts() as real;
    reals::lemma_integer_product(parts(), error);
    let e = error as real;
    reals::lemma_associates(qr, e, qr);
    reals::lemma_associates(4real, c, qr);
    assert(e * qr <= (4real * c) * qr);
    reals::lemma_cancels(e, 4real * c, qr);
    assert((-e) * qr == -(e * qr)) by (nonlinear_arith);
    reals::lemma_cancels(-e, 4real * c, qr);
}

/// A computed diagonal is near the exact one, in grains.
proof fn lemma_hypot_grains(x: Double, y: Double, extent: int, count: int)
    requires
        is_scale(extent, count),
        is_inside(x, 9 * extent),
        is_inside(y, 9 * extent),
    ensures
        is_inside(x.hypot(y), 16 * extent),
        !x.hypot(y).negative(),
        is_near_root(
            units(x.hypot(y)),
            units(x) * units(x) + units(y) * units(y),
            32real * grain(extent, count),
        ),
{
    let h = x.hypot(y);
    let q = parts();
    lemma_budget(extent, count);
    lemma_grain(extent, count);
    x.lemma_order(y);
    vstd::arithmetic::power2::lemma_pow2_adds(4, 1474);
    vstd::arithmetic::power2::lemma2_to64();
    vstd::arithmetic::power2::lemma_pow2_strictly_increases(1478, 1500);
    lengths::lemma_hypot_error(x, y);
    h.lemma_order(h);
    let hv = h.value();
    let xv = x.value();
    let yv = y.value();
    let square = xv * xv + yv * yv;
    let c = grain(extent, count);
    let qr = q as real;
    let e = 32real * c;
    let hr = hv as real;
    reals::lemma_integer_product(xv, xv);
    reals::lemma_integer_product(yv, yv);
    let sr = square as real;
    assert(sr == units(x) * units(x) + units(y) * units(y));
    reals::lemma_associates(32real, c, qr);
    if ((q - 4) * hv) * ((q - 4) * hv) <= (q * q) * square && (q * q) * square <= ((q + 4) * hv)
        * ((q + 4) * hv) {
        lemma_diagonal_inside(hv, xv, yv, extent);
        let a = (q - 4) * hv;
        let b = (q + 4) * hv;
        reals::lemma_integer_product(a, a);
        reals::lemma_integer_product(b, b);
        reals::lemma_integer_product(q, q);
        reals::lemma_integer_product(q * q, square);
        // four parts of the diagonal are no more than the margin
        assert(4real * hr <= e * qr);
        assert((hr + e) * qr == hr * qr + e * qr) by (nonlinear_arith);
        assert((hr - e) * qr == hr * qr - e * qr) by (nonlinear_arith);
        reals::lemma_integer_product(q, hv);
        reals::lemma_associates(qr, hr, qr);
        assert(a as real == hr * qr - 4real * hr) by {
            assert(a == q * hv - 4 * hv) by (nonlinear_arith)
                requires
                    a == (q - 4) * hv,
            ;
        }
        assert(b as real == hr * qr + 4real * hr) by {
            assert(b == q * hv + 4 * hv) by (nonlinear_arith)
                requires
                    b == (q + 4) * hv,
            ;
        }
        let up = (hr + e) * qr;
        let down = (hr - e) * qr;
        assert(qr * qr > 0real);
        reals::lemma_squares(b as real, up);
        assert(up * up == ((hr + e) * (hr + e)) * (qr * qr)) by (nonlinear_arith)
            requires
                up == (hr + e) * qr,
        ;
        assert(sr * (qr * qr) == (qr * qr) * sr) by (nonlinear_arith);
        reals::lemma_cancels(sr, (hr + e) * (hr + e), qr * qr);
        if e <= hr {
            reals::lemma_product_order(0real, hr - e, qr);
            assert(0real * qr == 0real) by (nonlinear_arith);
            reals::lemma_squares(down, a as real);
            assert(down * down == ((hr - e) * (hr - e)) * (qr * qr)) by (nonlinear_arith)
                requires
                    down == (hr - e) * qr,
            ;
            reals::lemma_cancels((hr - e) * (hr - e), sr, qr * qr);
        }
    } else {
        lemma_grain_large(extent, count);
        let top = pow2(700) as int;
        let side = pow2(594) as int;
        vstd::arithmetic::power2::lemma_pow2_strictly_increases(594, 700);
        vstd::arithmetic::power2::lemma_pow2_strictly_increases(700, 900);
        vstd::arithmetic::power2::lemma_pow2_strictly_increases(700, 1022);
        vstd::arithmetic::power2::lemma_pow2_pos(594);
        assert(xv * xv <= side * side && yv * yv <= side * side) by (nonlinear_arith)
            requires
                -side <= xv <= side,
                -side <= yv <= side,
        ;
        reals::lemma_integer_product(side, side);
        let t = side as real;
        assert(2real * t <= hr + e);
        reals::lemma_squares(2real * t, hr + e);
        assert((2real * t) * (2real * t) == 4real * (t * t)) by (nonlinear_arith);
        assert(t * t >= 0real) by (nonlinear_arith);
    }
}

/// A diagonal of sides within an extent.
proof fn lemma_diagonal_inside(h: int, x: int, y: int, extent: int)
    requires
        0 <= h,
        0 < extent,
        -(9 * extent) <= x <= 9 * extent,
        -(9 * extent) <= y <= 9 * extent,
        ((parts() - 4) * h) * ((parts() - 4) * h) <= (parts() * parts()) * (x * x + y * y),
    ensures
        h <= 16 * extent,
{
    let q = parts();
    let m = extent;
    assert(x * x <= 81 * (m * m) && y * y <= 81 * (m * m)) by (nonlinear_arith)
        requires
            -(9 * m) <= x <= 9 * m,
            -(9 * m) <= y <= 9 * m,
    ;
    bounds::lemma_product_order(x * x + y * y, 162 * (m * m), q * q);
    assert((x * x + y * y) * (q * q) == (q * q) * (x * x + y * y)) by (nonlinear_arith);
    if h > 16 * m {
        let a = (q - 4) * h;
        let b = (q - 4) * (16 * m);
        assert(b < a) by (nonlinear_arith)
            requires
                a == (q - 4) * h,
                b == (q - 4) * (16 * m),
                h > 16 * m,
                q == 0x20_0000_0000_0000,
        ;
        assert(b * b < a * a) by (nonlinear_arith)
            requires
                0 <= b < a,
        ;
        assert(b * b == ((q - 4) * (q - 4)) * (256 * (m * m))) by (nonlinear_arith)
            requires
                b == (q - 4) * (16 * m),
        ;
        assert((162 * (m * m)) * (q * q) <= ((q - 4) * (q - 4)) * (256 * (m * m)))
            by (nonlinear_arith)
            requires
                q == 0x20_0000_0000_0000,
                m > 0,
        ;
        assert(false);
    }
}

/// A grain is large against the smallest values.
proof fn lemma_grain_large(extent: int, count: int)
    requires
        is_scale(extent, count),
    ensures
        pow2(900) as int as real <= grain(extent, count),
{
    let c = grain(extent, count);
    let qr = parts() as real;
    let t = pow2(900) as int;
    lemma_grain(extent, count);
    lengths::lemma_parts();
    vstd::arithmetic::power2::lemma_pow2_adds(900, 53);
    vstd::arithmetic::power2::lemma_pow2_strictly_increases(953, 1022);
    assert(t * parts() <= extent) by (nonlinear_arith)
        requires
            pow2(900) * pow2(53) <= extent,
            pow2(53) == parts(),
            t == pow2(900),
    ;
    reals::lemma_integer_product(t, parts());
    reals::lemma_cancels(t as real, c, qr);
}

/// `y` is the image of `x` under a scaling and a shift, but for `slack`.
pub open spec fn is_image(x: real, y: real, s: real, d: real, slack: real) -> bool {
    is_small(y - (s * x + d), slack)
}

proof fn lemma_sum_image(xs: Seq<Double>, ys: Seq<Double>, s: real, d: real, slack: real, k: int)
    requires
        xs.len() == ys.len(),
        0 <= k <= xs.len(),
        forall|i: int|
            0 <= i < xs.len() ==> is_image(units(#[trigger] xs[i]), units(ys[i]), s, d, slack),
    ensures
        is_small(
            exact_sum(ys, k) as real - (s * (exact_sum(xs, k) as real) + (k as real) * d),
            (k as real) * slack,
        ),
    decreases k,
{
    if k <= 0 {
        assert(s * 0real == 0real && 0real * d == 0real && 0real * slack == 0real)
            by (nonlinear_arith);
    } else {
        lemma_sum_image(xs, ys, s, d, slack, k - 1);
        let a = exact_sum(xs, k - 1) as real;
        let x = units(xs[k - 1]);
        assert(is_image(units(xs[k - 1]), units(ys[k - 1]), s, d, slack));
        assert(s * (a + x) == s * a + s * x) by (nonlinear_arith);
        let kr = k as real;
        reals::lemma_distributes(kr, 1real, d);
        reals::lemma_distributes(kr, 1real, slack);
        assert((k - 1) as real == kr - 1real);
    }
}

proof fn lemma_mean_image(xs: Seq<Double>, ys: Seq<Double>, s: real, d: real, slack: real)
    requires
        xs.len() == ys.len(),
        0 < xs.len(),
        forall|i: int|
            0 <= i < xs.len() ==> is_image(units(#[trigger] xs[i]), units(ys[i]), s, d, slack),
    ensures
        is_image(exact_mean(xs), exact_mean(ys), s, d, slack),
{
    let n = xs.len() as int;
    let nr = n as real;
    lemma_sum_image(xs, ys, s, d, slack, n);
    let a = exact_sum(xs, n) as real;
    let b = exact_sum(ys, n) as real;
    let x = exact_mean(xs);
    let y = exact_mean(ys);
    reals::lemma_quotient(a, nr);
    reals::lemma_quotient(b, nr);
    let far = y - (s * x + d);
    assert(far * nr == y * nr - (s * (x * nr) + nr * d)) by (nonlinear_arith)
        requires
            far == y - (s * x + d),
    ;
    reals::lemma_associates(nr, slack, nr);
    assert(slack * nr == nr * slack) by (nonlinear_arith);
    reals::lemma_cancels(far, slack, nr);
    assert((-far) * nr == -(far * nr)) by (nonlinear_arith);
    reals::lemma_cancels(-far, slack, nr);
}

/// A computed point near an exact one.
spec fn is_near_point(p: Point, x: real, y: real, e: real, extent: int) -> bool {
    &&& is_inside(p.x, 4 * extent) && is_small(units(p.x) - x, e)
    &&& is_inside(p.y, 4 * extent) && is_small(units(p.y) - y, e)
}

/// A computed distance is near the exact one.
proof fn lemma_distance_near(
    p: Point,
    q: Point,
    px: real,
    py: real,
    qx: real,
    qy: real,
    extent: int,
    count: int,
)
    requires
        is_scale(extent, count),
        is_near_point(p, px, py, 6real * grain(extent, count), extent),
        is_near_point(q, qx, qy, 6real * grain(extent, count), extent),
    ensures
        is_inside(p.distance(q), 16 * extent),
        !p.distance(q).negative(),
        is_near_root(
            units(p.distance(q)),
            (px - qx) * (px - qx) + (py - qy) * (py - qy),
            64real * grain(extent, count),
        ),
{
    let c = grain(extent, count);
    lemma_grain(extent, count);
    lemma_sum_grains(p.x, q.x, extent, count);
    lemma_sum_grains(p.y, q.y, extent, count);
    let x = p.x - q.x;
    let y = p.y - q.y;
    lemma_hypot_grains(x, y, extent, count);
    reals::lemma_near_root_moved(
        units(x.hypot(y)),
        units(x),
        units(y),
        px - qx,
        py - qy,
        32real * c,
        16real * c,
    );
}

/// Two lengths of which the second is near the first one scaled.
spec fn agree(h: Double, g: Double, s: real, c: real, k: real) -> bool {
    is_small(s * units(h) - units(g), 68real * (s * c + k))
}

/// The distance of two points and that of their images.
proof fn lemma_distances_agree(
    p: Point,
    q: Point,
    p2: Point,
    q2: Point,
    at: Seq<real>,
    image: Seq<real>,
    s: real,
    dx: real,
    dy: real,
    extent: int,
    count: int,
    extent2: int,
)
    requires
        is_scale(extent, count),
        is_scale(extent2, count),
        0real < s,
        is_near_point(p, at[0], at[1], 6real * grain(extent, count), extent),
        is_near_point(q, at[2], at[3], 6real * grain(extent, count), extent),
        is_near_point(p2, image[0], image[1], 6real * grain(extent2, count), extent2),
        is_near_point(q2, image[2], image[3], 6real * grain(extent2, count), extent2),
        is_image(at[0], image[0], s, dx, grain(extent2, count)),
        is_image(at[1], image[1], s, dy, grain(extent2, count)),
        is_image(at[2], image[2], s, dx, grain(extent2, count)),
        is_image(at[3], image[3], s, dy, grain(extent2, count)),
    ensures
        agree(
            p.distance(q),
            p2.distance(q2),
            s,
            grain(extent, count),
            grain(extent2, count),
        ),
        is_inside(p.distance(q), 16 * extent) && !p.distance(q).negative(),
        is_inside(p2.distance(q2), 16 * extent2) && !p2.distance(q2).negative(),
{
    let c = grain(extent, count);
    let k = grain(extent2, count);
    lemma_grain(extent, count);
    lemma_grain(extent2, count);
    lemma_distance_near(p, q, at[0], at[1], at[2], at[3], extent, count);
    lemma_distance_near(p2, q2, image[0], image[1], image[2], image[3], extent2, count);
    let x = at[0] - at[2];
    let y = at[1] - at[3];
    let x2 = image[0] - image[2];
    let y2 = image[1] - image[3];
    let h = units(p.distance(q));
    let g = units(p2.distance(q2));
    assert(s * at[0] - s * at[2] == s * x && s * at[1] - s * at[3] == s * y) by (nonlinear_arith)
        requires
            x == at[0] - at[2],
            y == at[1] - at[3],
    ;
    reals::lemma_near_root_moved(g, x2, y2, s * x, s * y, 64real * k, 2real * k);
    let d = x * x + y * y;
    assert((s * x) * (s * x) + (s * y) * (s * y) == (s * s) * d) by (nonlinear_arith)
        requires
            d == x * x + y * y,
    ;
    reals::lemma_near_roots_compare(h, g, d, s, 64real * c, 68real * k);
    assert(s * (64real * c) == 64real * (s * c)) by (nonlinear_arith);
    assert(s * c >= 0real) by (nonlinear_arith)
        requires
            s > 0real,
            c >= 0real,
    ;
}

/// The exact centre of points, along an axis.
pub open spec fn exact_center(points: Seq<Point>, horizontal: bool) -> real {
    exact_mean(along(points, horizontal))
}

/// All points are within the extent of a face.
pub open spec fn are_inside(points: Seq<Point>, extent: int, count: int) -> bool {
    &&& points.len() <= count
    &&& forall|i: int|
        0 <= i < points.len() ==> is_inside((#[trigger] points[i]).x, extent) && is_inside(
            points[i].y,
            extent,
        )
}

/// `other` has the images of `points` under a scaling and a shift, but for `slack`.
pub open spec fn are_images(
    points: Seq<Point>,
    other: Seq<Point>,
    s: real,
    dx: real,
    dy: real,
    slack: real,
) -> bool {
    &&& points.len() == other.len()
    &&& forall|i: int|
        0 <= i < points.len() ==> is_image(
            units((#[trigger] points[i]).x),
            units(other[i].x),
            s,
            dx,
            slack,
        ) && is_image(units(points[i].y), units(other[i].y), s, dy, slack)
}

/// A computed centre is near the exact one.
proof fn lemma_center_near(points: Seq<Point>, extent: int, count: int)
    requires
        is_scale(extent, count),
        are_inside(points, extent, count),
        points.len() > 0,
    ensures
        spec_mean(points) is Some,
        is_near_point(
            spec_mean(points)->0,
            exact_center(points, true),
            exact_center(points, false),
            3real * grain(extent, count),
            extent,
        ),
        is_inside(spec_mean(points)->0.x, 2 * extent),
        is_inside(spec_mean(points)->0.y, 2 * extent),
{
    let n = points.len() as int;
    lemma_budget(extent, count);
    lemma_running_sum(points, n);
    let xs = along(points, true);
    let ys = along(points, false);
    assert forall|i: int| 0 <= i < xs.len() implies is_inside(#[trigger] xs[i], extent) by {
        assert(is_inside(points[i].x, extent));
    }
    assert forall|i: int| 0 <= i < ys.len() implies is_inside(#[trigger] ys[i], extent) by {
        assert(is_inside(points[i].x, extent));
    }
    lemma_mean_far(xs, extent, count);
    lemma_mean_far(ys, extent, count);
}

proof fn lemma_center_image(
    points: Seq<Point>,
    other: Seq<Point>,
    s: real,
    dx: real,
    dy: real,
    slack: real,
)
    requires
        are_images(points, other, s, dx, dy, slack),
        points.len() > 0,
    ensures
        is_image(exact_center(points, true), exact_center(other, true), s, dx, slack),
        is_image(exact_center(points, false), exact_center(other, false), s, dy, slack),
{
    let xs = along(points, true);
    let xs2 = along(other, true);
    let ys = along(points, false);
    let ys2 = along(other, false);
    assert forall|i: int| 0 <= i < xs.len() implies is_image(
        units(#[trigger] xs[i]),
        units(xs2[i]),
        s,
        dx,
        slack,
    ) by {
        assert(is_image(units(points[i].x), units(other[i].x), s, dx, slack));
    }
    assert forall|i: int| 0 <= i < ys.len() implies is_image(
        units(#[trigger] ys[i]),
        units(ys2[i]),
        s,
        dy,
        slack,
    ) by {
        assert(is_image(units(points[i].x), units(other[i].x), s, dx, slack));
    }
    lemma_mean_image(xs, xs2, s, dx, slack);
    lemma_mean_image(ys, ys2, s, dy, slack);
}

/// Half of a computed sum is near half of the exact one.
proof fn lemma_half_near(a: Double, b: Double, x: real, y: real, extent: int, count: int)
    requires
        is_scale(extent, count),
        is_inside(a, 2 * extent),
        is_inside(b, 2 * extent),
        is_small(units(a) - x, 3real * grain(extent, count)),
        is_small(units(b) - y, 3real * grain(extent, count)),
    ensures
        is_inside((a + b) / Double::integer(2), 4 * extent),
        is_small(
            units((a + b) / Double::integer(2)) - (x + y) / 2real,
            6real * grain(extent, count),
        ),
{
    let sum = a + b;
    let r = sum / Double::integer(2);
    let c = grain(extent, count);
    let qr = parts() as real;
    let q = parts();
    lemma_budget(extent, count);
    lemma_grain(extent, count);
    lengths::lemma_parts();
    a.lemma_order(b);
    vstd::arithmetic::power2::lemma_pow2_adds(1, 1474);
    vstd::arithmetic::power2::lemma2_to64();
    bounds::lemma_sum_within(a, b, 1475);
    bounds::lemma_sum_error(a, b);
    let error = sum.value() - (a.value() + b.value());
    assert(pow2(53) * error == q * error) by (nonlinear_arith)
        requires
            pow2(53) == q,
    ;
    sum.lemma_order(r);
    bounds::lemma_within_wider(sum, 1476, 1507);
    lemma_quotient_far(sum, 2);
    let g = r.value() * 2 - (a.value() + b.value());
    assert(q * g == q * (r.value() * 2 - sum.value()) + q * error) by (nonlinear_arith)
        requires
            g == (r.value() * 2 - sum.value()) + error,
    ;
    assert(-(10 * extent) <= q * g <= 10 * extent);
    assert(-(4 * extent) <= r.value() <= 4 * extent);
    reals::lemma_integer_product(q, g);
    let gr = g as real;
    reals::lemma_associates(qr, gr, qr);
    reals::lemma_associates(5real, c, qr);
    reals::lemma_cancels(gr, 5real * c, qr);
    assert((-gr) * qr == -(gr * qr)) by (nonlinear_arith);
    reals::lemma_cancels(-gr, 5real * c, qr);
    assert(gr == 2real * units(r) - (units(a) + units(b)));
}

/// A double as the number that it stands for.
pub open spec fn proportion(x: Double) -> real {
    units(x) / (pow2(1074) as int as real)
}

/// A size of a face that is not next to zero.
pub open spec fn is_size(x: Double, extent: int) -> bool {
    is_inside(x, extent) && epsilon().less(x)
}

proof fn lemma_size(x: Double, extent: int)
    requires
        is_size(x, extent),
    ensures
        !x.negative(),
        pow2(1022) <= x.value() <= extent,
        epsilon().less(x.abs()),
        x.magnitude() == x.value(),
{
    bounds::lemma_power_ratio();
    vstd::arithmetic::power2::lemma_pow2_pos(1022);
    x.lemma_order(x.abs());
    epsilon().lemma_order(x);
}

/// A computed proportion is near the exact one.
proof fn lemma_ratio_near(h: Double, w: Double, extent: int, count: int)
    requires
        is_scale(extent, count),
        is_inside(h, 16 * extent),
        !h.negative(),
        is_size(w, extent),
    ensures
        0real <= proportion(h / w),
        is_small(proportion(h / w) * units(w) - units(h), 9real * grain(extent, count)),
{
    let m = h / w;
    let unit = pow2(1074) as int;
    let q = parts();
    lemma_size(w, extent);
    let a = h.magnitude() * unit;
    let d = w.magnitude();
    lemma_budget(extent, count);
    lemma_grain(extent, count);
    lengths::lemma_parts();
    h.lemma_order(w);
    vstd::arithmetic::power2::lemma_pow2_pos(1074);
    vstd::arithmetic::power2::lemma_pow2_pos(1022);
    vstd::arithmetic::power2::lemma_pow2_pos(1530);
    vstd::arithmetic::power2::lemma_pow2_adds(4, 1474);
    vstd::arithmetic::power2::lemma_pow2_adds(1478, 1074);
    vstd::arithmetic::power2::lemma_pow2_adds(1530, 1022);
    vstd::arithmetic::power2::lemma_pow2_strictly_increases(52, 1074);
    vstd::arithmetic::power2::lemma2_to64();
    assert(0 <= a <= pow2(1478) * unit) by (nonlinear_arith)
        requires
            a == h.magnitude() * unit,
            0 <= h.magnitude() <= pow2(1478),
            unit > 0,
    ;
    assert(pow2(1530) * pow2(1022) <= pow2(1530) * d) by (nonlinear_arith)
        requires
            pow2(1022) <= d,
            pow2(1530) > 0,
    ;
    bounds::lemma_nearest_within(false, a, d, 1530);
    let k = patterns::rounded(a, d, 52, 2047);
    Double::lemma_format();
    rounding::lemma_nearest_exists(a, d, 52, patterns::infinity(52, 2047));
    bounds::lemma_signed(false, k);
    assert(Double::nearest(false, a, d) == Double::signed(false, k)) by {
        reveal(Double::nearest);
    }
    assert(m == Double::signed(false, k)) by {
        reveal(Double::spec_div);
        reveal(Double::nearest);
    }
    bounds::lemma_rounding_error(a, d);
    let v = m.value();
    let g = v * d - a;
    assert(pow2(53) * g == q * g && pow2(52) * d == 0x10_0000_0000_0000 * d) by (nonlinear_arith)
        requires
            pow2(53) == q,
            pow2(52) == 0x10_0000_0000_0000,
    ;
    // all errors together are no more than seventeen extents
    assert(a + 0x10_0000_0000_0000 * d <= 17 * (extent * unit)) by {
        assert(a <= 16 * (extent * unit)) by (nonlinear_arith)
            requires
                a == h.magnitude() * unit,
                h.magnitude() <= 16 * extent,
                unit > 0,
        ;
        assert(0x10_0000_0000_0000 * d <= extent * unit) by (nonlinear_arith)
            requires
                0 <= d <= extent,
                0x10_0000_0000_0000 <= unit,
        ;
    }
    let ur = unit as real;
    let qr = q as real;
    let er = extent as real;
    let c = grain(extent, count);
    let p = proportion(m);
    let hr = units(h);
    let wr = units(w);
    reals::lemma_quotient(units(m), ur);
    reals::lemma_integer_product(v, d);
    reals::lemma_integer_product(h.magnitude(), unit);
    reals::lemma_integer_product(q, g);
    reals::lemma_integer_product(extent, unit);
    let far = p * wr - hr;
    let gr = g as real;
    assert(far * ur == (p * ur) * wr - hr * ur) by (nonlinear_arith)
        requires
            far == p * wr - hr,
    ;
    assert(gr == far * ur);
    assert(qr * gr == (qr * far) * ur) by (nonlinear_arith)
        requires
            gr == far * ur,
    ;
    assert(17real * (er * ur) == (17real * er) * ur) by (nonlinear_arith);
    reals::lemma_cancels(qr * far, 17real * er, ur);
    assert((-(qr * far)) * ur == -(qr * gr)) by (nonlinear_arith)
        requires
            qr * gr == (qr * far) * ur,
    ;
    reals::lemma_cancels(-(qr * far), 17real * er, ur);
    reals::lemma_associates(9real, c, qr);
    reals::lemma_associates(qr, far, qr);
    assert(far * qr <= (9real * c) * qr);
    reals::lemma_cancels(far, 9real * c, qr);
    assert((-far) * qr == -(far * qr)) by (nonlinear_arith);
    reals::lemma_cancels(-far, 9real * c, qr);
    if p < 0real {
        assert(p * ur < 0real) by (nonlinear_arith)
            requires
                p < 0real,
                ur > 0real,
        ;
    }
}

/// What rounding makes of a proportion at most: the number of points times the extent of the face
/// over the size that it is a proportion of, in units of `2^-44`.
pub open spec fn tolerance(extent: int, count: int, size: Double) -> real {
    256real * (grain(extent, count) / units(size))
}

/// `y` is the size `x` scaled, but for a rounding.
pub open spec fn is_image_size(x: Double, y: Double, s: real) -> bool {
    is_small((units(y) - s * units(x)) * (parts() as real), 2real * units(y))
}

/// Proportions of lengths and sizes that agree agree.
proof fn lemma_ratios_agree(
    h: Double,
    w: Double,
    h2: Double,
    w2: Double,
    s: real,
    extent: int,
    count: int,
    extent2: int,
)
    requires
        is_scale(extent, count),
        is_scale(extent2, count),
        0real < s,
        is_inside(h, 16 * extent),
        !h.negative(),
        is_size(w, extent),
        is_inside(h2, 16 * extent2),
        !h2.negative(),
        is_size(w2, extent2),
        is_image_size(w, w2, s),
        agree(h, h2, s, grain(extent, count), grain(extent2, count)),
    ensures
        is_small(
            proportion(h / w) - proportion(h2 / w2),
            tolerance(extent, count, w) + tolerance(extent2, count, w2),
        ),
{
    let c = grain(extent, count);
    let k = grain(extent2, count);
    let p = proportion(h / w);
    let r = proportion(h2 / w2);
    let wr = units(w);
    let vr = units(w2);
    let qr = parts() as real;
    vstd::arithmetic::power2::lemma_pow2_pos(1022);
    lemma_size(w, extent);
    lemma_size(w2, extent2);
    lemma_grain(extent, count);
    lemma_grain(extent2, count);
    lemma_ratio_near(h, w, extent, count);
    lemma_ratio_near(h2, w2, extent2, count);
    let a = c / wr;
    let b = k / vr;
    reals::lemma_quotient(c, wr);
    reals::lemma_quotient(k, vr);
    let z = s * wr;
    let hr = units(h);
    let gr = units(h2);
    // the lengths
    let far = p * wr - hr;
    assert(s * far == p * z - s * hr) by (nonlinear_arith)
        requires
            far == p * wr - hr,
            z == s * wr,
    ;
    reals::lemma_product_order(far, 9real * c, s);
    reals::lemma_product_order(-far, 9real * c, s);
    assert(far * s == s * far && (-far) * s == -(s * far) && (9real * c) * s == 9real * (s * c))
        by (nonlinear_arith);
    assert(s * c == a * z) by (nonlinear_arith)
        requires
            a * wr == c,
            z == s * wr,
    ;
    assert(is_small(p * z - r * vr, 77real * (a * z + b * vr)));
    // the sizes
    let off = vr - z;
    assert(a >= 0real && b >= 0real) by {
        reals::lemma_cancels(0real, a, wr);
        reals::lemma_cancels(0real, b, vr);
        assert(0real * wr == 0real && 0real * vr == 0real) by (nonlinear_arith);
    }
    assert(z <= 2real * vr) by {
        assert((2real * vr) * qr == 2real * (vr * qr)) by (nonlinear_arith);
        assert(off * qr == vr * qr - z * qr) by (nonlinear_arith)
            requires
                off == vr - z,
        ;
        reals::lemma_product_order(2real, qr, vr);
        assert(qr * vr == vr * qr) by (nonlinear_arith);
        reals::lemma_cancels(z, 2real * vr, qr);
    }
    reals::lemma_product_order(z, 2real * vr, a);
    assert(z * a == a * z && (2real * vr) * a == 2real * (a * vr)) by (nonlinear_arith);
    // the first proportion is no more than some grains of its size
    let er = extent as real;
    assert(p * wr <= 25real * er);
    assert((13real * (a * qr)) * wr == 13real * (c * qr)) by (nonlinear_arith)
        requires
            a * wr == c,
    ;
    reals::lemma_cancels(p, 13real * (a * qr), wr);
    // what the sizes differ by
    let moved = p * off;
    assert(moved * qr == p * (off * qr)) by (nonlinear_arith)
        requires
            moved == p * off,
    ;
    reals::lemma_product_order(off * qr, 2real * vr, p);
    reals::lemma_product_order(-(off * qr), 2real * vr, p);
    assert((off * qr) * p == moved * qr && (-(off * qr)) * p == -(moved * qr) && (2real * vr) * p
        == 2real * (p * vr)) by (nonlinear_arith)
        requires
            moved == p * off,
    ;
    reals::lemma_product_order(p, 13real * (a * qr), vr);
    assert((13real * (a * qr)) * vr == (13real * (a * vr)) * qr) by (nonlinear_arith);
    assert(2real * ((13real * (a * vr)) * qr) == (26real * (a * vr)) * qr) by (nonlinear_arith);
    reals::lemma_cancels(moved, 26real * (a * vr), qr);
    assert((-moved) * qr == -(moved * qr)) by (nonlinear_arith);
    reals::lemma_cancels(-moved, 26real * (a * vr), qr);
    assert(moved == p * vr - p * z) by (nonlinear_arith)
        requires
            moved == p * off,
            off == vr - z,
    ;
    // together
    let total = p - r;
    let bound = 256real * a + 256real * b;
    assert(total * vr == p * vr - r * vr) by (nonlinear_arith)
        requires
            total == p - r,
    ;
    assert(bound * vr == 256real * (a * vr) + 256real * (b * vr)) by (nonlinear_arith)
        requires
            bound == 256real * a + 256real * b,
    ;
    assert(a * vr >= 0real && b * vr >= 0real) by (nonlinear_arith)
        requires
            a >= 0real,
            b >= 0real,
            vr > 0real,
    ;
    reals::lemma_cancels(total, bound, vr);
    assert((-total) * vr == -(total * vr)) by (nonlinear_arith);
    reals::lemma_cancels(-total, bound, vr);
}

/// What a coordinate of an image may be off: two roundings of its extent.
pub open spec fn rounding_of(extent: int) -> real {
    (2 * extent) as real / parts() as real
}

proof fn lemma_rounding_of(extent: int, count: int)
    requires
        is_scale(extent, count),
    ensures
        0real <= rounding_of(extent) <= grain(extent, count),
{
    let qr = parts() as real;
    lemma_budget(extent, count);
    lemma_grain(extent, count);
    reals::lemma_quotient((2 * extent) as real, qr);
    reals::lemma_cancels(rounding_of(extent), grain(extent, count), qr);
    assert(0real * qr == 0real) by (nonlinear_arith);
    reals::lemma_cancels(0real, rounding_of(extent), qr);
}

/// A face whose sizes and points are within an extent, and no region of which has too many points.
pub open spec fn has_extent(
    bounds: BoundingBox,
    landmarks: Seq<RegionView>,
    extent: int,
    count: int,
) -> bool {
    &&& is_scale(extent, count)
    &&& is_size(bounds.width, extent)
    &&& is_size(bounds.height, extent)
    &&& forall|i: int|
        0 <= i < landmarks.len() ==> are_inside((#[trigger] landmarks[i]).points, extent, count)
}

/// `other` has the images of all regions under a scaling and a shift, but for `slack`.
pub open spec fn are_region_images(
    landmarks: Seq<RegionView>,
    other: Seq<RegionView>,
    s: real,
    dx: real,
    dy: real,
    slack: real,
) -> bool {
    &&& landmarks.len() == other.len()
    &&& forall|i: int|
        0 <= i < landmarks.len() ==> {
            &&& (#[trigger] landmarks[i]).kind == other[i].kind
            &&& are_images(landmarks[i].points, other[i].points, s, dx, dy, slack)
        }
}

/// Two lengths, both missing or both there and near.
spec fn agree_if_any(
    h: Option<Double>,
    g: Option<Double>,
    s: real,
    extent: int,
    count: int,
    extent2: int,
) -> bool {
    match (h, g) {
        (Some(h), Some(g)) => {
            &&& agree(h, g, s, grain(extent, count), grain(extent2, count))
            &&& is_inside(h, 16 * extent) && !h.negative()
            &&& is_inside(g, 16 * extent2) && !g.negative()
        },
        (None, None) => true,
        _ => false,
    }
}

proof fn lemma_greater_agrees(
    a: Double,
    b: Double,
    a2: Double,
    b2: Double,
    s: real,
    c: real,
    k: real,
)
    requires
        0real < s,
        !a.nan(),
        !b.nan(),
        !a2.nan(),
        !b2.nan(),
        agree(a, a2, s, c, k),
        agree(b, b2, s, c, k),
    ensures
        agree(a.max(b), a2.max(b2), s, c, k),
{
    let x = units(a);
    let y = units(b);
    if x <= y {
        reals::lemma_product_order(x, y, s);
    } else {
        reals::lemma_product_order(y, x, s);
    }
    assert(x * s == s * x && y * s == s * y) by (nonlinear_arith);
}

proof fn lemma_widest_agree(
    points: Seq<Point>,
    other: Seq<Point>,
    s: real,
    dx: real,
    dy: real,
    extent: int,
    count: int,
    extent2: int,
    i: int,
    j: int,
)
    requires
        is_scale(extent, count),
        is_scale(extent2, count),
        0real < s,
        are_inside(points, extent, count),
        are_inside(other, extent2, count),
        are_images(points, other, s, dx, dy, rounding_of(extent2)),
        i < points.len(),
        j <= points.len(),
    ensures
        agree_if_any(widest(points, i, j), widest(other, i, j), s, extent, count, extent2),
    decreases i + 1, j,
{
    if i < 0 {
    } else if j <= i + 1 {
        lemma_widest_agree(
            points,
            other,
            s,
            dx,
            dy,
            extent,
            count,
            extent2,
            i - 1,
            points.len() as int,
        );
    } else {
        lemma_widest_agree(points, other, s, dx, dy, extent, count, extent2, i, j - 1);
        lemma_budget(extent, count);
        lemma_budget(extent2, count);
        lemma_grain(extent, count);
        lemma_grain(extent2, count);
        lemma_rounding_of(extent2, count);
        let p = points[i];
        let q = points[j - 1];
        let p2 = other[i];
        let q2 = other[j - 1];
        assert(is_inside(points[i].x, extent) && is_inside(points[j - 1].x, extent));
        assert(is_inside(other[i].x, extent2) && is_inside(other[j - 1].x, extent2));
        assert(is_image(units(points[i].x), units(other[i].x), s, dx, rounding_of(extent2)));
        assert(is_image(
            units(points[j - 1].x),
            units(other[j - 1].x),
            s,
            dx,
            rounding_of(extent2),
        ));
        lemma_distances_agree(
            p,
            q,
            p2,
            q2,
            seq![units(p.x), units(p.y), units(q.x), units(q.y)],
            seq![units(p2.x), units(p2.y), units(q2.x), units(q2.y)],
            s,
            dx,
            dy,
            extent,
            count,
            extent2,
        );
        match (widest(points, i, j - 1), widest(other, i, j - 1)) {
            (Some(a), Some(a2)) => {
                lemma_greater_agrees(
                    a,
                    p.distance(q),
                    a2,
                    p2.distance(q2),
                    s,
                    grain(extent, count),
                    grain(extent2, count),
                );
            },
            _ => {},
        }
    }
}

/// A region of a face and that of its image.
spec fn region_agrees(
    a: Option<Seq<Point>>,
    b: Option<Seq<Point>>,
    s: real,
    dx: real,
    dy: real,
    extent: int,
    count: int,
    extent2: int,
) -> bool {
    match (a, b) {
        (Some(a), Some(b)) => {
            &&& are_inside(a, extent, count)
            &&& are_inside(b, extent2, count)
            &&& are_images(a, b, s, dx, dy, rounding_of(extent2))
        },
        (None, None) => true,
        _ => false,
    }
}

proof fn lemma_region_agrees(
    landmarks: Seq<RegionView>,
    other: Seq<RegionView>,
    kind: LandmarkKind,
    from: int,
    s: real,
    dx: real,
    dy: real,
    extent: int,
    count: int,
    extent2: int,
)
    requires
        are_region_images(landmarks, other, s, dx, dy, rounding_of(extent2)),
        forall|i: int|
            0 <= i < landmarks.len() ==> are_inside(
                (#[trigger] landmarks[i]).points,
                extent,
                count,
            ),
        forall|i: int|
            0 <= i < other.len() ==> are_inside((#[trigger] other[i]).points, extent2, count),
        0 <= from,
    ensures
        region_agrees(
            region_from(landmarks, kind, from),
            region_from(other, kind, from),
            s,
            dx,
            dy,
            extent,
            count,
            extent2,
        ),
    decreases landmarks.len() - from,
{
    if from < landmarks.len() {
        assert(landmarks[from].kind == other[from].kind);
        assert(are_inside(other[from].points, extent2, count));
        if landmarks[from].kind != kind {
            lemma_region_agrees(
                landmarks,
                other,
                kind,
                from + 1,
                s,
                dx,
                dy,
                extent,
                count,
                extent2,
            );
        }
    }
}

/// Two measurements, both missing or both there and near.
pub open spec fn is_near_if_any(x: Option<Double>, y: Option<Double>, tolerance: real) -> bool {
    match (x, y) {
        (Some(x), Some(y)) => is_small(proportion(x) - proportion(y), tolerance),
        (None, None) => true,
        _ => false,
    }
}

/// Two faces, the second of which is the image of the first.
struct Images {
    s: real,
    dx: real,
    dy: real,
    extent: int,
    count: int,
    extent2: int,
}

impl Images {
    spec fn is_valid(self) -> bool {
        &&& is_scale(self.extent, self.count)
        &&& is_scale(self.extent2, self.count)
        &&& 0real < self.s
    }

    spec fn holds(self, a: Option<Seq<Point>>, b: Option<Seq<Point>>) -> bool {
        region_agrees(
            a,
            b,
            self.s,
            self.dx,
            self.dy,
            self.extent,
            self.count,
            self.extent2,
        )
    }

    /// The distance of two centres and that of their images.
    proof fn lemma_centers_agree(
        self,
        a: Seq<Point>,
        b: Seq<Point>,
        a2: Seq<Point>,
        b2: Seq<Point>,
    )
        requires
            self.is_valid(),
            self.holds(Some(a), Some(a2)),
            self.holds(Some(b), Some(b2)),
            a.len() > 0,
            b.len() > 0,
        ensures
            agree_if_any(
                Some(spec_mean(a)->0.distance(spec_mean(b)->0)),
                Some(spec_mean(a2)->0.distance(spec_mean(b2)->0)),
                self.s,
                self.extent,
                self.count,
                self.extent2,
            ),
    {
        let slack = rounding_of(self.extent2);
        lemma_grain(self.extent, self.count);
        lemma_grain(self.extent2, self.count);
        lemma_rounding_of(self.extent2, self.count);
        lemma_center_near(a, self.extent, self.count);
        lemma_center_near(b, self.extent, self.count);
        lemma_center_near(a2, self.extent2, self.count);
        lemma_center_near(b2, self.extent2, self.count);
        lemma_center_image(a, a2, self.s, self.dx, self.dy, slack);
        lemma_center_image(b, b2, self.s, self.dx, self.dy, slack);
        lemma_distances_agree(
            spec_mean(a)->0,
            spec_mean(b)->0,
            spec_mean(a2)->0,
            spec_mean(b2)->0,
            seq![
                exact_center(a, true),
                exact_center(a, false),
                exact_center(b, true),
                exact_center(b, false),
            ],
            seq![
                exact_center(a2, true),
                exact_center(a2, false),
                exact_center(b2, true),
                exact_center(b2, false),
            ],
            self.s,
            self.dx,
            self.dy,
            self.extent,
            self.count,
            self.extent2,
        );
    }

    /// The distance of the middle of two centres from a third one, and that of their images.
    proof fn lemma_middles_agree(
        self,
        a: Seq<Point>,
        b: Seq<Point>,
        m: Seq<Point>,
        a2: Seq<Point>,
        b2: Seq<Point>,
        m2: Seq<Point>,
    )
        requires
            self.is_valid(),
            self.holds(Some(a), Some(a2)),
            self.holds(Some(b), Some(b2)),
            self.holds(Some(m), Some(m2)),
            a.len() > 0,
            b.len() > 0,
            m.len() > 0,
        ensures
            agree_if_any(
                Some(midpoint(spec_mean(a)->0, spec_mean(b)->0).distance(spec_mean(m)->0)),
                Some(midpoint(spec_mean(a2)->0, spec_mean(b2)->0).distance(spec_mean(m2)->0)),
                self.s,
                self.extent,
                self.count,
                self.extent2,
            ),
    {
        let slack = rounding_of(self.extent2);
        let s = self.s;
        lemma_grain(self.extent, self.count);
        lemma_grain(self.extent2, self.count);
        lemma_rounding_of(self.extent2, self.count);
        lemma_center_near(a, self.extent, self.count);
        lemma_center_near(b, self.extent, self.count);
        lemma_center_near(m, self.extent, self.count);
        lemma_center_near(a2, self.extent2, self.count);
        lemma_center_near(b2, self.extent2, self.count);
        lemma_center_near(m2, self.extent2, self.count);
        lemma_center_image(a, a2, s, self.dx, self.dy, slack);
        lemma_center_image(b, b2, s, self.dx, self.dy, slack);
        lemma_center_image(m, m2, s, self.dx, self.dy, slack);
        let ax = exact_center(a, true);
        let ay = exact_center(a, false);
        let bx = exact_center(b, true);
        let by = exact_center(b, false);
        let ax2 = exact_center(a2, true);
        let ay2 = exact_center(a2, false);
        let bx2 = exact_center(b2, true);
        let by2 = exact_center(b2, false);
        let p = spec_mean(a)->0;
        let q = spec_mean(b)->0;
        let p2 = spec_mean(a2)->0;
        let q2 = spec_mean(b2)->0;
        lemma_half_near(p.x, q.x, ax, bx, self.extent, self.count);
        lemma_half_near(p.y, q.y, ay, by, self.extent, self.count);
        lemma_half_near(p2.x, q2.x, ax2, bx2, self.extent2, self.count);
        lemma_half_near(p2.y, q2.y, ay2, by2, self.extent2, self.count);
        assert(s * ((ax + bx) / 2real) == (s * ax + s * bx) / 2real) by (nonlinear_arith);
        assert(s * ((ay + by) / 2real) == (s * ay + s * by) / 2real) by (nonlinear_arith);
        lemma_distances_agree(
            midpoint(p, q),
            spec_mean(m)->0,
            midpoint(p2, q2),
            spec_mean(m2)->0,
            seq![
                (ax + bx) / 2real,
                (ay + by) / 2real,
                exact_center(m, true),
                exact_center(m, false),
            ],
            seq![
                (ax2 + bx2) / 2real,
                (ay2 + by2) / 2real,
                exact_center(m2, true),
                exact_center(m2, false),
            ],
            s,
            self.dx,
            self.dy,
            self.extent,
            self.count,
            self.extent2,
        );
    }

    /// Proportions of lengths that agree.
    proof fn lemma_measured(
        self,
        h: Option<Double>,
        g: Option<Double>,
        w: Double,
        w2: Double,
    )
        requires
            self.is_valid(),
            agree_if_any(h, g, self.s, self.extent, self.count, self.extent2),
            is_size(w, self.extent),
            is_size(w2, self.extent2),
            is_image_size(w, w2, self.s),
        ensures
            h is Some ==> is_near_if_any(
                safe_ratio(h->0, w),
                safe_ratio(g->0, w2),
                tolerance(self.extent, self.count, w) + tolerance(self.extent2, self.count, w2),
            ) && safe_ratio(h->0, w) is Some,
    {
        lemma_size(w, self.extent);
        lemma_size(w2, self.extent2);
        if h is Some {
            lemma_ratios_agree(
                h->0,
                w,
                g->0,
                w2,
                self.s,
                self.extent,
                self.count,
                self.extent2,
            );
        }
    }

    /// Sizes agree as lengths.
    proof fn lemma_sizes_agree(self, w: Double, w2: Double)
        requires
            self.is_valid(),
            is_size(w, self.extent),
            is_size(w2, self.extent2),
            is_image_size(w, w2, self.s),
        ensures
            agree_if_any(
                Some(w),
                Some(w2),
                self.s,
                self.extent,
                self.count,
                self.extent2,
            ),
    {
        let c = grain(self.extent, self.count);
        let k = grain(self.extent2, self.count);
        let qr = parts() as real;
        lemma_size(w, self.extent);
        lemma_size(w2, self.extent2);
        lemma_budget(self.extent, self.count);
        lemma_budget(self.extent2, self.count);
        lemma_grain(self.extent, self.count);
        lemma_grain(self.extent2, self.count);
        let off = units(w2) - self.s * units(w);
        reals::lemma_cancels(off, k, qr);
        assert((-off) * qr == -(off * qr)) by (nonlinear_arith);
        reals::lemma_cancels(-off, k, qr);
        let s = self.s;
        assert(s * c >= 0real) by (nonlinear_arith)
            requires
                s > 0real,
                c >= 0real,
        ;
    }
}

/// The measurements do not depend on scale or position: those of a face and of its image under any
/// scaling and shift, rounded as doubles are, are the same up to rounding, and the same ones are
/// missing.
pub proof fn law_measurements_agree(
    bounds: BoundingBox,
    landmarks: Seq<RegionView>,
    image: BoundingBox,
    other: Seq<RegionView>,
    s: real,
    dx: real,
    dy: real,
    extent: int,
    image_extent: int,
    count: int,
)
    requires
        0real < s,
        has_extent(bounds, landmarks, extent, count),
        has_extent(image, other, image_extent, count),
        is_image_size(bounds.width, image.width, s),
        is_image_size(bounds.height, image.height, s),
        are_region_images(landmarks, other, s, dx, dy, rounding_of(image_extent)),
    ensures
        ({
            let a = FaceGeometry::spec_measurements(bounds, landmarks);
            let b = FaceGeometry::spec_measurements(image, other);
            let by_width = tolerance(extent, count, bounds.width) + tolerance(
                image_extent,
                count,
                image.width,
            );
            let by_height = tolerance(extent, count, bounds.height) + tolerance(
                image_extent,
                count,
                image.height,
            );
            &&& is_small(
                proportion(a.face_aspect_ratio) - proportion(b.face_aspect_ratio),
                by_width,
            )
            &&& is_near_if_any(
                a.inter_eye_distance_face_width,
                b.inter_eye_distance_face_width,
                by_width,
            )
            &&& is_near_if_any(a.mouth_width_face_width, b.mouth_width_face_width, by_width)
            &&& is_near_if_any(
                a.eye_to_mouth_distance_face_height,
                b.eye_to_mouth_distance_face_height,
                by_height,
            )
        }),
{
    let images = Images { s, dx, dy, extent, count, extent2: image_extent };
    images.lemma_sizes_agree(bounds.height, image.height);
    images.lemma_measured(Some(bounds.height), Some(image.height), bounds.width, image.width);
    lemma_region_agrees(
        landmarks,
        other,
        LandmarkKind::LeftEye,
        0,
        s,
        dx,
        dy,
        extent,
        count,
        image_extent,
    );
    lemma_region_agrees(
        landmarks,
        other,
        LandmarkKind::RightEye,
        0,
        s,
        dx,
        dy,
        extent,
        count,
        image_extent,
    );
    lemma_region_agrees(
        landmarks,
        other,
        LandmarkKind::OuterLips,
        0,
        s,
        dx,
        dy,
        extent,
        count,
        image_extent,
    );
    let left = spec_region(landmarks, LandmarkKind::LeftEye);
    let left2 = spec_region(other, LandmarkKind::LeftEye);
    let right = spec_region(landmarks, LandmarkKind::RightEye);
    let right2 = spec_region(other, LandmarkKind::RightEye);
    let lips = spec_region(landmarks, LandmarkKind::OuterLips);
    let lips2 = spec_region(other, LandmarkKind::OuterLips);
    if left is Some && right is Some && left->0.len() > 0 && right->0.len() > 0 {
        images.lemma_centers_agree(left->0, right->0, left2->0, right2->0);
        images.lemma_measured(
            Some(spec_mean(left->0)->0.distance(spec_mean(right->0)->0)),
            Some(spec_mean(left2->0)->0.distance(spec_mean(right2->0)->0)),
            bounds.width,
            image.width,
        );
        if lips is Some && lips->0.len() > 0 {
            images.lemma_middles_agree(
                left->0,
                right->0,
                lips->0,
                left2->0,
                right2->0,
                lips2->0,
            );
            images.lemma_measured(
                Some(
                    midpoint(spec_mean(left->0)->0, spec_mean(right->0)->0).distance(
                        spec_mean(lips->0)->0,
                    ),
                ),
                Some(
                    midpoint(spec_mean(left2->0)->0, spec_mean(right2->0)->0).distance(
                        spec_mean(lips2->0)->0,
                    ),
                ),
                bounds.height,
                image.height,
            );
        }
    }
    if lips is Some {
        let n = lips->0.len() as int;
        lemma_widest_agree(
            lips->0,
            lips2->0,
            s,
            dx,
            dy,
            extent,
            count,
            image_extent,
            n - 1,
            n,
        );
        images.lemma_measured(
            spec_region_diameter(landmarks, LandmarkKind::OuterLips),
            spec_region_diameter(other, LandmarkKind::OuterLips),
            bounds.width,
            image.width,
        );
    }
}

/// Two points come before a pair in the order in which pairs are compared.
spec fn is_earlier(a: int, b: int, i: int, j: int, n: int) -> bool {
    0 <= a < b < n && (a < i || (a == i && b < j))
}

/// The widest pair of those that were compared.
proof fn lemma_widest(points: Seq<Point>, i: int, j: int)
    requires
        -1 <= i < points.len(),
        j <= points.len(),
        forall|a: int, b: int|
            0 <= a < b < points.len() ==> !(#[trigger] points[a].distance(points[b])).nan(),
    ensures
        match widest(points, i, j) {
            Some(width) => {
                &&& !width.nan()
                &&& forall|a: int, b: int|
                    is_earlier(a, b, i, j, points.len() as int) ==> (#[trigger] points[a].distance(
                        points[b],
                    )).at_most(width)
                &&& exists|a: int, b: int|
                    is_earlier(a, b, i, j, points.len() as int) && width
                        == #[trigger] points[a].distance(points[b])
            },
            None => forall|a: int, b: int|
                #![trigger points[a], points[b]]
                !is_earlier(a, b, i, j, points.len() as int),
        },
    decreases i + 1, j,
{
    let n = points.len() as int;
    if i >= 0 {
        if j <= i + 1 {
            lemma_widest(points, i - 1, n);
            assert forall|a: int, b: int| is_earlier(a, b, i, j, n) == is_earlier(
                a,
                b,
                i - 1,
                n,
                n,
            ) by {}
        } else {
            lemma_widest(points, i, j - 1);
            let last = points[i].distance(points[j - 1]);
            assert(!last.nan());
            assert(is_earlier(i, j - 1, i, j, n));
            assert forall|a: int, b: int| is_earlier(a, b, i, j, n) implies is_earlier(
                a,
                b,
                i,
                j - 1,
                n,
            ) || (a == i && b == j - 1) by {}
            if let Some(before) = widest(points, i, j - 1) {
                let (a, b) = choose|a: int, b: int|
                    is_earlier(a, b, i, j - 1, n) && before == #[trigger] points[a].distance(
                        points[b],
                    );
                assert(is_earlier(a, b, i, j, n));
            }
        }
    }
}

/// A proportion is that of a length, given by its square, to a size, up to `e`.
pub open spec fn is_proportion(x: Double, square: real, w: Double, e: real) -> bool {
    is_near_root(proportion(x) * units(w), square, e)
}

/// The square of the distance of two places.
pub open spec fn square_between(px: real, py: real, qx: real, qy: real) -> real {
    (px - qx) * (px - qx) + (py - qy) * (py - qy)
}

/// The proportion of a computed length.
proof fn lemma_proportion(h: Double, square: real, w: Double, extent: int, count: int)
    requires
        is_scale(extent, count),
        is_inside(h, 16 * extent),
        !h.negative(),
        is_size(w, extent),
        is_near_root(units(h), square, 64real * grain(extent, count)),
    ensures
        safe_ratio(h, w) is Some,
        is_proportion(safe_ratio(h, w)->0, square, w, 73real * grain(extent, count)),
{
    let c = grain(extent, count);
    lemma_grain(extent, count);
    lemma_size(w, extent);
    lemma_ratio_near(h, w, extent, count);
    let p = proportion(h / w) * units(w);
    let hr = units(h);
    reals::lemma_product_order(0real, proportion(h / w), units(w));
    assert(0real * units(w) == 0real) by (nonlinear_arith);
    let e = 73real * c;
    if e <= p {
        reals::lemma_squares(p - e, hr - 64real * c);
    }
    reals::lemma_squares(hr + 64real * c, p + e);
}

/// The points of a kind are within the extent of a face.
proof fn lemma_inside(landmarks: Seq<RegionView>, kind: LandmarkKind, extent: int, count: int)
    requires
        forall|i: int|
            0 <= i < landmarks.len() ==> are_inside(
                (#[trigger] landmarks[i]).points,
                extent,
                count,
            ),
    ensures
        spec_region(landmarks, kind) matches Some(points) ==> are_inside(points, extent, count),
{
    model::law_first_region_counts(landmarks, kind);
}

/// The measurements are the proportions that they are named after, up to rounding: of the height
/// to the width; of the distance of the means of the points of the eyes to the width; of the
/// greatest distance of two points of the lips to the width; and of the distance from the middle
/// between the eyes to the mean of the lips to the height. Each is there where its points are.
pub proof fn law_measurements_are_proportions(
    bounds: BoundingBox,
    landmarks: Seq<RegionView>,
    extent: int,
    count: int,
)
    requires
        has_extent(bounds, landmarks, extent, count),
    ensures
        ({
            let m = FaceGeometry::spec_measurements(bounds, landmarks);
            let e = 73real * grain(extent, count);
            let left = spec_region(landmarks, LandmarkKind::LeftEye);
            let right = spec_region(landmarks, LandmarkKind::RightEye);
            let lips = spec_region(landmarks, LandmarkKind::OuterLips);
            let eyes = left is Some && left->0.len() > 0 && right is Some && right->0.len() > 0;
            let mouth = lips is Some && lips->0.len() > 0;
            let (lx, ly) = (exact_center(left->0, true), exact_center(left->0, false));
            let (rx, ry) = (exact_center(right->0, true), exact_center(right->0, false));
            let (mx, my) = (exact_center(lips->0, true), exact_center(lips->0, false));
            &&& is_small(
                proportion(m.face_aspect_ratio) * units(bounds.width) - units(bounds.height),
                e,
            )
            &&& m.inter_eye_distance_face_width is Some == eyes
            &&& eyes ==> is_proportion(
                m.inter_eye_distance_face_width->0,
                square_between(lx, ly, rx, ry),
                bounds.width,
                e,
            )
            &&& m.eye_to_mouth_distance_face_height is Some == (eyes && mouth)
            &&& eyes && mouth ==> is_proportion(
                m.eye_to_mouth_distance_face_height->0,
                square_between((lx + rx) / 2real, (ly + ry) / 2real, mx, my),
                bounds.height,
                e,
            )
            &&& m.mouth_width_face_width is Some == (lips is Some && lips->0.len() > 1)
            &&& m.mouth_width_face_width matches Some(width) ==> {
                let ps = lips->0;
                &&& exists|i: int, j: int|
                    #![trigger ps[i], ps[j]]
                    0 <= i < j < ps.len() && is_proportion(
                        width,
                        square_between(
                            units(ps[i].x),
                            units(ps[i].y),
                            units(ps[j].x),
                            units(ps[j].y),
                        ),
                        bounds.width,
                        e,
                    )
                &&& forall|i: int, j: int|
                    #![trigger ps[i], ps[j]]
                    0 <= i < j < ps.len() ==> {
                        let far = proportion(width) * units(bounds.width) + 2real * e;
                        square_between(
                            units(ps[i].x),
                            units(ps[i].y),
                            units(ps[j].x),
                            units(ps[j].y),
                        ) <= far * far
                    }
            }
        }),
{
    let m = FaceGeometry::spec_measurements(bounds, landmarks);
    let c = grain(extent, count);
    let e = 73real * c;
    let (w, h) = (bounds.width, bounds.height);
    let left = spec_region(landmarks, LandmarkKind::LeftEye);
    let right = spec_region(landmarks, LandmarkKind::RightEye);
    let lips = spec_region(landmarks, LandmarkKind::OuterLips);
    lemma_grain(extent, count);
    lemma_budget(extent, count);
    lemma_size(w, extent);
    lemma_size(h, extent);
    lemma_ratio_near(h, w, extent, count);
    lemma_inside(landmarks, LandmarkKind::LeftEye, extent, count);
    lemma_inside(landmarks, LandmarkKind::RightEye, extent, count);
    lemma_inside(landmarks, LandmarkKind::OuterLips, extent, count);
    if left is Some && left->0.len() > 0 && right is Some && right->0.len() > 0 {
        lemma_center_near(left->0, extent, count);
        lemma_center_near(right->0, extent, count);
        let (p, q) = (spec_mean(left->0)->0, spec_mean(right->0)->0);
        let (lx, ly) = (exact_center(left->0, true), exact_center(left->0, false));
        let (rx, ry) = (exact_center(right->0, true), exact_center(right->0, false));
        lemma_distance_near(p, q, lx, ly, rx, ry, extent, count);
        lemma_proportion(p.distance(q), square_between(lx, ly, rx, ry), w, extent, count);
        if lips is Some && lips->0.len() > 0 {
            lemma_center_near(lips->0, extent, count);
            let (mx, my) = (exact_center(lips->0, true), exact_center(lips->0, false));
            let o = spec_mean(lips->0)->0;
            lemma_half_near(p.x, q.x, lx, rx, extent, count);
            lemma_half_near(p.y, q.y, ly, ry, extent, count);
            let z = midpoint(p, q);
            lemma_distance_near(
                z,
                o,
                (lx + rx) / 2real,
                (ly + ry) / 2real,
                mx,
                my,
                extent,
                count,
            );
            lemma_proportion(
                z.distance(o),
                square_between((lx + rx) / 2real, (ly + ry) / 2real, mx, my),
                h,
                extent,
                count,
            );
        }
    }
    if lips is Some {
        lemma_mouth(lips->0, w, extent, count);
    }
}

/// The widest pair of points, and its proportion.
proof fn lemma_mouth(ps: Seq<Point>, w: Double, extent: int, count: int)
    requires
        is_scale(extent, count),
        are_inside(ps, extent, count),
        is_size(w, extent),
    ensures
        ({
            let n = ps.len() as int;
            let e = 73real * grain(extent, count);
            let found = widest(ps, n - 1, n);
            &&& found is Some == (n > 1)
            &&& found matches Some(length) ==> {
                let width = safe_ratio(length, w)->0;
                &&& safe_ratio(length, w) is Some
                &&& exists|i: int, j: int|
                    #![trigger ps[i], ps[j]]
                    0 <= i < j < n && is_proportion(
                        width,
                        square_between(
                            units(ps[i].x),
                            units(ps[i].y),
                            units(ps[j].x),
                            units(ps[j].y),
                        ),
                        w,
                        e,
                    )
                &&& forall|i: int, j: int|
                    #![trigger ps[i], ps[j]]
                    0 <= i < j < n ==> {
                        let far = proportion(width) * units(w) + 2real * e;
                        square_between(
                            units(ps[i].x),
                            units(ps[i].y),
                            units(ps[j].x),
                            units(ps[j].y),
                        ) <= far * far
                    }
            }
        }),
{
    let n = ps.len() as int;
    let c = grain(extent, count);
    let e = 73real * c;
    lemma_grain(extent, count);
    lemma_budget(extent, count);
    assert forall|i: int, j: int| 0 <= i < n && 0 <= j < n implies {
        let length = #[trigger] ps[i].distance(ps[j]);
        &&& is_inside(length, 16 * extent)
        &&& !length.negative()
        &&& is_near_root(
            units(length),
            square_between(units(ps[i].x), units(ps[i].y), units(ps[j].x), units(ps[j].y)),
            64real * c,
        )
    } by {
        assert(is_inside(ps[i].x, extent) && is_inside(ps[j].x, extent));
        lemma_distance_near(
            ps[i],
            ps[j],
            units(ps[i].x),
            units(ps[i].y),
            units(ps[j].x),
            units(ps[j].y),
            extent,
            count,
        );
    }
    lemma_widest(ps, n - 1, n);
    if n > 1 {
        assert(is_earlier(0, 1, n - 1, n, n));
        let x = ps[0];
        let y = ps[1];
    }
    if let Some(length) = widest(ps, n - 1, n) {
        let (a, b) = choose|a: int, b: int|
            is_earlier(a, b, n - 1, n, n) && length == #[trigger] ps[a].distance(ps[b]);
        let square = square_between(
            units(ps[a].x),
            units(ps[a].y),
            units(ps[b].x),
            units(ps[b].y),
        );
        lemma_proportion(length, square, w, extent, count);
        lemma_size(w, extent);
        lemma_ratio_near(length, w, extent, count);
        let width = safe_ratio(length, w)->0;
        let far = proportion(width) * units(w) + 2real * e;
        assert forall|i: int, j: int|
            #![trigger ps[i], ps[j]]
            0 <= i < j < n implies square_between(
            units(ps[i].x),
            units(ps[i].y),
            units(ps[j].x),
            units(ps[j].y),
        ) <= far * far by {
            let other = ps[i].distance(ps[j]);
            assert(is_earlier(i, j, n - 1, n, n));
            assert(other.at_most(length));
            reals::lemma_squares(units(other) + 64real * c, far);
        }
    }
}

} // verus!
