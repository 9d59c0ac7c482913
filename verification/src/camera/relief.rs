//! What stands out of a face, and how its mesh is lit.

use vstd::prelude::*;
use vstd::arithmetic::power2::pow2;
use crate::bounds;
use crate::bounds::is_within;
use crate::camera::depth::{
    dome, feature_exponent, first_light, lit, lit_edges, more_light, shaded, spec_light,
    spec_canonical_face_coordinates, spec_pseudo_face_depth, spec_shade_band, surface_brightness,
    Features, LitEdge, SinCos, Vector,
};
use crate::camera::mesh::half;
use crate::camera::triangulation::Triangle;
use crate::camera::turning;
use crate::double::Double;
use crate::model::{epsilon, BoundingBox, Point};
use crate::monotone;
use crate::monotone::size;
use crate::patterns;
use crate::placing;
use crate::rounding;

verus! {

/// A value between nothing and one.
pub open spec fn is_weight(x: Double) -> bool {
    x.is_finite() && !x.negative() && x.value() <= pow2(1074)
}

/// A weight that may be missing.
pub open spec fn is_optional_weight(x: Option<Double>) -> bool {
    x matches Some(weight) ==> is_weight(weight)
}

/// The value of a weight, none where it is missing.
pub open spec fn weight_of(x: Option<Double>) -> int {
    match x {
        Some(weight) => weight.value(),
        None => 0,
    }
}

/// A fraction, and its error.
pub(crate) proof fn lemma_ratio_error(n: u64, d: u64)
    requires
        0 < n <= d <= 1000,
    ensures
        ({
            let v = Double::ratio(n, d);
            &&& v.is_finite()
            &&& !v.negative()
            &&& v.value() <= pow2(1074)
            &&& 0x8_0000_0000_0000 * size(d * v.value() - n * pow2(1074)) <= n * pow2(1074)
        }),
{
    let unit = pow2(1074) as int;
    vstd::arithmetic::power2::lemma_pow2_pos(1074);
    patterns::lemma_small_powers(52);
    vstd::arithmetic::power2::lemma_pow2_unfold(53);
    vstd::arithmetic::power2::lemma2_to64_rest();
    vstd::arithmetic::power2::lemma_pow2_strictly_increases(63, 1074);
    let m = n * unit;
    assert(unit <= m <= unit * d) by (nonlinear_arith)
        requires
            m == n * unit,
            0 < n <= d,
            unit > 0,
    ;
    bounds::lemma_nearest_within(false, m, d as int, 1074);
    bounds::lemma_nearest_signed(false, m, d as int);
    reveal(Double::nearest);
    Double::lemma_format();
    rounding::lemma_nearest_exists(m, d as int, 52, patterns::infinity(52, 2047));
    let k = patterns::rounded(m, d as int, 52, 2047);
    bounds::lemma_signed(false, k);
    bounds::lemma_rounding_error(m, d as int);
    let v = rounding::mag(k, 52);
    assert(v * d == d * v) by (nonlinear_arith);
    assert(pow2(52) * d == 0x10_0000_0000_0000 * d);
}

/// A share of a weight, and its error: no more than `2^-43`.
proof fn lemma_term(n: u64, w: Double)
    requires
        0 < n <= 100,
        is_weight(w),
    ensures
        ({
            let p = Double::ratio(n, 100) * w;
            &&& p.is_finite()
            &&& 0 <= p.value() <= pow2(1074)
            &&& 0x800_0000_0000 * size(100 * p.value() - n * w.value()) <= pow2(1074)
        }),
{
    let unit = pow2(1074) as int;
    vstd::arithmetic::power2::lemma_pow2_pos(1074);
    vstd::arithmetic::power2::lemma2_to64_rest();
    vstd::arithmetic::power2::lemma_pow2_strictly_increases(63, 1074);
    lemma_ratio_error(n, 100);
    let a = Double::ratio(n, 100);
    w.lemma_order(a);
    monotone::lemma_share_error(a, w);
    bounds::lemma_product_sign(a, w);
    let p = (a * w).value();
    (a * w).lemma_order(a);
    let (x, y) = (a.value(), w.value());
    let e = 100 * x - n * unit;
    assert(100 * (x * y) == n * (unit * y) + e * y) by (nonlinear_arith)
        requires
            100 * x == n * unit + e,
    ;
    assert(0 <= x * y <= x * unit && x * unit <= unit * unit) by (nonlinear_arith)
        requires
            0 <= y <= unit,
            0 <= x <= unit,
    ;
    assert(size(e * y) <= size(e) * unit) by (nonlinear_arith)
        requires
            0 <= y <= unit,
    ;
    let big = 0x8_0000_0000_0000int;
    let nu = n * unit;
    assert(nu <= 100 * unit) by (nonlinear_arith)
        requires
            nu == n * unit,
            n <= 100,
            unit > 0,
    ;
    bounds::lemma_product_order(big * size(e), 100 * unit, unit);
    assert(big * size(e) * unit == big * (size(e) * unit)) by (nonlinear_arith);
    assert(100 * unit * unit == 100 * (unit * unit)) by (nonlinear_arith);
    // p is near x y / unit
    let g = p * unit - x * y;
    let far = 100 * p - n * y;
    assert(far * unit == 100 * g + e * y) by (nonlinear_arith)
        requires
            far == 100 * p - n * y,
            g == p * unit - x * y,
            100 * (x * y) == n * (unit * y) + e * y,
    ;
    assert(size(far * unit) == size(far) * unit) by (nonlinear_arith)
        requires
            unit > 0,
    ;
    let uu = unit * unit;
    assert(0x10_0000_0000_0000 * unit <= uu) by (nonlinear_arith)
        requires
            uu == unit * unit,
            unit >= 0x10_0000_0000_0000,
    ;
    assert(0x800_0000_0000 * (size(far) * unit) <= uu);
    assert(0x800_0000_0000 * size(far) <= unit) by (nonlinear_arith)
        requires
            0x800_0000_0000 * (size(far) * unit) <= unit * unit,
            unit > 0,
    ;
}

/// A sum that is not large, and its error: no more than `2^-50`.
proof fn lemma_step(a: Double, b: Double)
    requires
        is_within(a, 1077),
        is_within(b, 1074),
        a.magnitude() <= 6 * pow2(1074),
    ensures
        (a + b).is_finite(),
        (a - b).is_finite(),
        0x4_0000_0000_0000 * size((a + b).value() - (a.value() + b.value())) <= pow2(1074),
        0x4_0000_0000_0000 * size((a - b).value() - (a.value() - b.value())) <= pow2(1074),
{
    patterns::lemma_small_powers(52);
    vstd::arithmetic::power2::lemma_pow2_unfold(53);
    vstd::arithmetic::power2::lemma_pow2_pos(1074);
    vstd::arithmetic::power2::lemma2_to64();
    vstd::arithmetic::power2::lemma_pow2_adds(3, 1074);
    a.lemma_order(b);
    bounds::lemma_within_wider(b, 1074, 1077);
    bounds::lemma_sum_within(a, b, 1077);
    bounds::lemma_sum_error(a, b);
    monotone::lemma_difference_error(a, b);
}

/// A depth with a feature before or behind it.
spec fn with_feature(depth: Double, weight: Option<Double>, n: u64, forward: bool) -> Double {
    match weight {
        Some(w) => if forward {
            depth + Double::ratio(n, 100) * w
        } else {
            depth - Double::ratio(n, 100) * w
        },
        None => depth,
    }
}

proof fn lemma_feature(depth: Double, weight: Option<Double>, n: u64, forward: bool)
    requires
        depth.is_finite(),
        depth.magnitude() <= 5 * pow2(1074),
        is_optional_weight(weight),
        0 < n <= 100,
    ensures
        ({
            let r = with_feature(depth, weight, n, forward);
            let exact = if forward {
                100 * depth.value() + n * weight_of(weight)
            } else {
                100 * depth.value() - n * weight_of(weight)
            };
            &&& r.is_finite()
            &&& 0x400_0000_0000 * size(100 * r.value() - exact) <= pow2(1074)
            &&& 1024 * r.magnitude() <= 1024 * depth.magnitude() + 1025 * pow2(1074)
        }),
{
    let r = with_feature(depth, weight, n, forward);
    vstd::arithmetic::power2::lemma_pow2_pos(1074);
    vstd::arithmetic::power2::lemma2_to64();
    vstd::arithmetic::power2::lemma_pow2_adds(3, 1074);
    depth.lemma_order(r);
    if let Some(w) = weight {
        lemma_term(n, w);
        let p = Double::ratio(n, 100) * w;
        p.lemma_order(depth);
        lemma_step(depth, p);
    } else {
        assert(n * 0 == 0) by (nonlinear_arith);
    }
}

/// The nose and the mouth stand out and the eyes are recessed: the depth of a point is that of the
/// dome with thirty hundredths of the nose's weight and seven of the mouth's added, and six of each
/// eye's taken away, cut off at eight hundredths and at one, up to rounding.
#[verifier::rlimit(40)]
pub proof fn law_features_shape_the_depth(
    bounds: BoundingBox,
    roll: SinCos,
    weights: Features,
    point: Point,
)
    requires
        !bounds.width.at_most(epsilon()),
        !bounds.height.at_most(epsilon()),
        is_weight(dome(spec_canonical_face_coordinates(bounds, roll, point))),
        is_optional_weight(weights.nose),
        is_optional_weight(weights.mouth),
        is_optional_weight(weights.left_eye),
        is_optional_weight(weights.right_eye),
    ensures
        ({
            let unit = pow2(1074);
            let base = dome(spec_canonical_face_coordinates(bounds, roll, point)).value();
            let depth = spec_pseudo_face_depth(bounds, roll, weights, point);
            let exact = 100 * base + 30 * weight_of(weights.nose) + 7 * weight_of(weights.mouth)
                - 6 * weight_of(weights.left_eye) - 6 * weight_of(weights.right_eye);
            let cut = if exact < 8 * unit {
                8 * unit as int
            } else if exact > 100 * unit {
                100 * unit as int
            } else {
                exact
            };
            depth.is_finite() && 0x100_0000_0000 * size(100 * depth.value() - cut) <= unit
        }),
{
    let unit = pow2(1074) as int;
    vstd::arithmetic::power2::lemma_pow2_pos(1074);
    vstd::arithmetic::power2::lemma2_to64();
    vstd::arithmetic::power2::lemma2_to64_rest();
    vstd::arithmetic::power2::lemma_pow2_adds(3, 1074);
    vstd::arithmetic::power2::lemma_pow2_strictly_increases(63, 1074);
    let base = dome(spec_canonical_face_coordinates(bounds, roll, point));
    base.lemma_order(base);
    let s1 = with_feature(base, weights.nose, 30, true);
    let s2 = with_feature(s1, weights.mouth, 7, true);
    let s3 = with_feature(s2, weights.left_eye, 6, false);
    let s4 = with_feature(s3, weights.right_eye, 6, false);
    lemma_feature(base, weights.nose, 30, true);
    lemma_feature(s1, weights.mouth, 7, true);
    lemma_feature(s2, weights.left_eye, 6, false);
    lemma_feature(s3, weights.right_eye, 6, false);
    lemma_ratio_error(8, 100);
    bounds::lemma_one();
    let depth = spec_pseudo_face_depth(bounds, roll, weights, point);
    assert(depth == s4.clamp(Double::ratio(8, 100), Double::integer(1)));
    lemma_four_features(
        unit,
        base.value(),
        s1.value(),
        s2.value(),
        s3.value(),
        s4.value(),
        weight_of(weights.nose),
        weight_of(weights.mouth),
        weight_of(weights.left_eye),
        weight_of(weights.right_eye),
        Double::ratio(8, 100).value(),
    );
}

/// A depth after four features, cut off.
proof fn lemma_four_features(
    u: int,
    b: int,
    s1: int,
    s2: int,
    s3: int,
    s4: int,
    n: int,
    m: int,
    l: int,
    r: int,
    low: int,
)
    requires
        u > 0,
        0x400_0000_0000 * size(100 * s1 - (100 * b + 30 * n)) <= u,
        0x400_0000_0000 * size(100 * s2 - (100 * s1 + 7 * m)) <= u,
        0x400_0000_0000 * size(100 * s3 - (100 * s2 - 6 * l)) <= u,
        0x400_0000_0000 * size(100 * s4 - (100 * s3 - 6 * r)) <= u,
        0x8_0000_0000_0000 * size(100 * low - 8 * u) <= 8 * u,
    ensures
        ({
            let exact = 100 * b + 30 * n + 7 * m - 6 * l - 6 * r;
            let cut = if exact < 8 * u {
                8 * u
            } else if exact > 100 * u {
                100 * u
            } else {
                exact
            };
            let d = if s4 < low {
                low
            } else if s4 > u {
                u
            } else {
                s4
            };
            0x100_0000_0000 * size(100 * d - cut) <= u
        }),
{
    let exact = 100 * b + 30 * n + 7 * m - 6 * l - 6 * r;
    let (e1, e2) = (100 * s1 - (100 * b + 30 * n), 100 * s2 - (100 * s1 + 7 * m));
    let (e3, e4) = (100 * s3 - (100 * s2 - 6 * l), 100 * s4 - (100 * s3 - 6 * r));
    assert(-u <= 0x400_0000_0000 * e1 <= u);
    assert(-u <= 0x400_0000_0000 * e2 <= u);
    assert(-u <= 0x400_0000_0000 * e3 <= u);
    assert(-u <= 0x400_0000_0000 * e4 <= u);
    lemma_cut_depth(u, s4, low, exact);
}

proof fn lemma_cut_depth(u: int, s: int, low: int, exact: int)
    requires
        u > 0,
        -u <= 0x100_0000_0000 * (100 * s - exact) <= u,
        0x8_0000_0000_0000 * size(100 * low - 8 * u) <= 8 * u,
    ensures
        ({
            let cut = if exact < 8 * u {
                8 * u
            } else if exact > 100 * u {
                100 * u
            } else {
                exact
            };
            let d = if s < low {
                low
            } else if s > u {
                u
            } else {
                s
            };
            0x100_0000_0000 * size(100 * d - cut) <= u
        }),
{
    assert(-u <= 0x1000_0000_0000 * (100 * low - 8 * u) <= u);
}

/// The dome of a face is highest in its middle, and no higher the farther out.
pub proof fn law_dome_falls_outwards(place: Point, other: Point)
    requires
        is_within(place.x, 1100),
        is_within(place.y, 1100),
        is_within(other.x, 1100),
        is_within(other.y, 1100),
        place.x.magnitude() <= other.x.magnitude(),
        place.y.magnitude() <= other.y.magnitude(),
    ensures
        dome(other).at_most(dome(place)),
        is_weight(dome(place)),
        place.x.value() == 0 && place.y.value() == 0 ==> dome(place).value() == Double::ratio(
            78,
            100,
        ).value(),
{
    lemma_dome_floor(place);
    lemma_dome_floor(other);
    let (p, q) = (dome_floor(place), dome_floor(other));
    lemma_squares_order(place.x, other.x);
    lemma_squares_order(place.y, other.y);
    monotone::lemma_sum_order(
        place.x * place.x,
        place.y * place.y,
        other.x * other.x,
        other.y * other.y,
    );
    let (a, b) = (
        place.x * place.x + place.y * place.y,
        other.x * other.x + other.y * other.y,
    );
    let steep = Double::ratio(115, 100);
    lemma_steep();
    placing::lemma_factors_commute(a, steep);
    placing::lemma_factors_commute(b, steep);
    monotone::lemma_scaled_order(steep, a, b);
    bounds::lemma_one();
    vstd::arithmetic::power2::lemma_pow2_pos(1074);
    monotone::lemma_sum_order(Double::integer(1), a * steep, Double::integer(1), b * steep);
    let top = Double::ratio(78, 100);
    lemma_ratio_error(78, 100);
    top.lemma_order(p);
    monotone::lemma_quotient_order(top, q, top, p);
    bounds::lemma_quotient_sign(top, p);
    // no higher than at the middle
    let one = Double::integer(1);
    monotone::lemma_quotient_order(top, p, top, one);
    lemma_over_one(top);
    dome(place).lemma_order(top);
    if place.x.value() == 0 && place.y.value() == 0 {
        place.x.lemma_order(place.y);
        bounds::lemma_zero_product(place.x, place.x);
        bounds::lemma_zero_product(place.y, place.y);
        let (x, y) = (place.x * place.x, place.y * place.y);
        x.lemma_order(y);
        bounds::lemma_plus_zero(x, y);
        a.lemma_order(x);
        bounds::lemma_zero_product(a, steep);
        bounds::lemma_plus_zero(one, a * steep);
        monotone::lemma_quotient_order(top, one, top, p);
    }
}

/// What the top of the dome is divided by.
spec fn dome_floor(place: Point) -> Double {
    Double::integer(1) + (place.x * place.x + place.y * place.y) * Double::ratio(115, 100)
}

proof fn lemma_steep()
    ensures
        Double::ratio(115, 100).is_finite(),
        Double::ratio(115, 100).value() > 0,
        is_within(Double::ratio(115, 100), 1075),
        !Double::ratio(115, 100).negative(),
{
    let unit = pow2(1074) as int;
    vstd::arithmetic::power2::lemma_pow2_pos(1074);
    vstd::arithmetic::power2::lemma_pow2_unfold(1075);
    assert(115 * unit <= 2 * unit * 100);
    bounds::lemma_nearest_within(false, 115u64 * pow2(1074), 100, 1075);
    bounds::lemma_nearest_signed(false, 115u64 * pow2(1074), 100);
    bounds::lemma_ratio_positive(115, 100);
}

proof fn lemma_dome_floor(place: Point)
    requires
        is_within(place.x, 1100),
        is_within(place.y, 1100),
    ensures
        (place.x * place.x).is_finite(),
        (place.y * place.y).is_finite(),
        (place.x * place.x + place.y * place.y).is_finite(),
        ((place.x * place.x + place.y * place.y) * Double::ratio(115, 100)).is_finite(),
        dome_floor(place).is_finite(),
        dome_floor(place).value() >= pow2(1074),
        !dome_floor(place).negative(),
{
    let (x, y) = (place.x, place.y);
    bounds::lemma_product_within(x, x, 1100);
    bounds::lemma_product_within(y, y, 1100);
    lemma_square_not_negative(x);
    lemma_square_not_negative(y);
    bounds::lemma_sum_within(x * x, y * y, 1126);
    bounds::lemma_sum_sign(x * x, y * y);
    let a = x * x + y * y;
    let steep = Double::ratio(115, 100);
    lemma_steep();
    bounds::lemma_product_bound(a, steep, 1127, 1075);
    bounds::lemma_product_sign(a, steep);
    let b = a * steep;
    let one = Double::integer(1);
    bounds::lemma_one();
    vstd::arithmetic::power2::lemma_pow2_strictly_increases(1074, 1128);
    bounds::lemma_sum_within(one, b, 1128);
    bounds::lemma_sum_sign(one, b);
    b.lemma_order(one);
    let zero = Double { bits: 0 };
    zero.lemma_order(one);
    monotone::lemma_sum_order(one, zero, one, b);
    bounds::lemma_plus_zero(one, zero);
}

pub(crate) proof fn lemma_square_not_negative(x: Double)
    ensures
        !(x * x).negative(),
{
    reveal(Double::spec_mul);
    vstd::arithmetic::power2::lemma_pow2_pos(1074);
    bounds::lemma_nearest_signed(false, x.magnitude() * x.magnitude(), pow2(1074) as int);
}

/// Squares are ordered as sizes are.
proof fn lemma_squares_order(x: Double, y: Double)
    requires
        x.is_finite(),
        y.is_finite(),
        x.magnitude() <= y.magnitude(),
    ensures
        (x * x).value() <= (y * y).value(),
{
    let (a, b) = (x.abs(), y.abs());
    a.lemma_order(x);
    b.lemma_order(y);
    x.lemma_order(y);
    reveal(Double::spec_mul);
    assert(a * a == x * x && b * b == y * y);
    monotone::lemma_product_order(a, a, b, b);
}

proof fn lemma_over_one(x: Double)
    requires
        x.is_finite(),
        !x.negative(),
    ensures
        (x / Double::integer(1)).value() == x.value(),
{
    let one = Double::integer(1);
    let unit = pow2(1074) as int;
    bounds::lemma_one();
    vstd::arithmetic::power2::lemma_pow2_pos(1074);
    x.lemma_order(one);
    let k = x.pattern() as int;
    bounds::lemma_exact(k);
    Double::lemma_format();
    let n = x.magnitude();
    assert(n == rounding::mag(k, 52)) by {
        reveal(Double::magnitude);
    }
    let inf = patterns::infinity(52, 2047);
    assert(n * unit * 1 == n * unit) by (nonlinear_arith);
    rounding::law_rounding_keeps_order(n * unit, unit, n, 1, 52, inf);
    rounding::law_rounding_keeps_order(n, 1, n * unit, unit, 52, inf);
    reveal(Double::spec_div);
    reveal(Double::nearest);
    bounds::lemma_signed(false, k);
}

/// No turn.
pub open spec fn no_turn() -> SinCos {
    SinCos { sin: Double::integer(0), cos: Double::integer(1) }
}

/// A quarter of a turn.
pub open spec fn quarter_turn() -> SinCos {
    SinCos { sin: Double::integer(1), cos: Double::integer(0) }
}

pub open spec fn is_vector(v: Vector) -> bool {
    v.x.is_finite() && v.y.is_finite() && v.z.is_finite()
}

/// A vector has these values.
pub open spec fn has_values(v: Vector, x: int, y: int, z: int) -> bool {
    is_vector(v) && v.x.value() == x && v.y.value() == y && v.z.value() == z
}

/// A pair of values turned by nothing or by a quarter.
proof fn lemma_turned(p: Double, q: Double)
    requires
        p.is_finite(),
        q.is_finite(),
    ensures
        ({
            let (zero, one) = (Double::integer(0), Double::integer(1));
            &&& (p * one + q * zero).is_finite() && (p * one + q * zero).value() == p.value()
            &&& (p * one - q * zero).is_finite() && (p * one - q * zero).value() == p.value()
            &&& (p * zero + q * one).is_finite() && (p * zero + q * one).value() == q.value()
            &&& (p * zero - q * one).is_finite() && (p * zero - q * one).value() == -q.value()
            &&& p.negated().is_finite() && p.negated().value() == -p.value()
        }),
{
    let zero = Double { bits: 0 };
    let one = Double::integer(1);
    bounds::lemma_zero();
    bounds::lemma_one();
    bounds::lemma_times_one(p);
    bounds::lemma_times_one(q);
    bounds::lemma_zero_product(p, zero);
    bounds::lemma_zero_product(q, zero);
    let (a, b) = (p * zero, q * zero);
    bounds::lemma_plus_zero(p, b);
    bounds::lemma_plus_zero(p, b.negated());
    lemma_plus_comes_first(a, q);
    lemma_plus_comes_first(a, q.negated());
    q.lemma_order(q.negated());
    p.lemma_order(p.negated());
}

proof fn lemma_plus_comes_first(zero: Double, x: Double)
    requires
        x.is_finite(),
        zero.pattern() == 0,
    ensures
        (zero + x).is_finite(),
        (zero + x).value() == x.value(),
{
    bounds::lemma_plus_zero(x, zero);
    reveal(Double::spec_add);
    zero.lemma_order(x);
    bounds::lemma_signed(x.negative() && zero.negative(), 0);
    let y = Double::signed(x.negative() && zero.negative(), 0);
    y.lemma_order(y);
}

/// A head's yaw turns what looks ahead to the side, its pitch what is above to the front, and its
/// roll what is at the side up; no turn leaves a direction as it is.
pub proof fn law_quarter_turns(v: Vector)
    requires
        is_vector(v),
    ensures
        ({
            let (x, y, z) = (v.x.value(), v.y.value(), v.z.value());
            &&& has_values(v.spec_rotated(no_turn(), no_turn(), no_turn()), x, y, z)
            &&& has_values(v.spec_rotated(quarter_turn(), no_turn(), no_turn()), z, y, -x)
            &&& has_values(v.spec_rotated(no_turn(), quarter_turn(), no_turn()), x, -z, y)
            &&& has_values(v.spec_rotated(no_turn(), no_turn(), quarter_turn()), -y, x, z)
        }),
{
    lemma_yawed(v);
    lemma_stages(v, no_turn());
    lemma_stages(v, quarter_turn());
}

/// The first turn.
spec fn yawed(v: Vector, yaw: SinCos) -> Vector {
    Vector {
        x: v.x * yaw.cos + v.z * yaw.sin,
        y: v.y,
        z: v.x.negated() * yaw.sin + v.z * yaw.cos,
    }
}

/// The second turn.
spec fn pitched(v: Vector, pitch: SinCos) -> Vector {
    Vector {
        x: v.x,
        y: v.y * pitch.cos - v.z * pitch.sin,
        z: v.y * pitch.sin + v.z * pitch.cos,
    }
}

/// The third turn.
spec fn rolled(v: Vector, roll: SinCos) -> Vector {
    Vector {
        x: v.x * roll.cos - v.y * roll.sin,
        y: v.x * roll.sin + v.y * roll.cos,
        z: v.z,
    }
}

proof fn lemma_yawed(v: Vector)
    requires
        is_vector(v),
    ensures
        has_values(yawed(v, no_turn()), v.x.value(), v.y.value(), v.z.value()),
        has_values(yawed(v, quarter_turn()), v.z.value(), v.y.value(), -v.x.value()),
        has_values(pitched(v, no_turn()), v.x.value(), v.y.value(), v.z.value()),
        has_values(pitched(v, quarter_turn()), v.x.value(), -v.z.value(), v.y.value()),
        has_values(rolled(v, no_turn()), v.x.value(), v.y.value(), v.z.value()),
        has_values(rolled(v, quarter_turn()), -v.y.value(), v.x.value(), v.z.value()),
{
    lemma_turned(v.x, v.z);
    lemma_turned(v.x.negated(), v.z);
    lemma_turned(v.y, v.z);
    lemma_turned(v.x, v.y);
    lemma_swapped_turn(v.x.negated(), v.z);
    lemma_swapped_turn(v.y, v.z);
    lemma_swapped_turn(v.x, v.y);
}

/// The other two sums of a turn.
proof fn lemma_swapped_turn(p: Double, q: Double)
    requires
        p.is_finite(),
        q.is_finite(),
    ensures
        ({
            let (zero, one) = (Double::integer(0), Double::integer(1));
            &&& (p * one + q * zero).value() == p.value()
            &&& (p * zero + q * one).value() == q.value()
        }),
{
    lemma_turned(p, q);
}

/// Three turns, one after the other.
proof fn lemma_stages(v: Vector, turn: SinCos)
    requires
        is_vector(v),
        turn == no_turn() || turn == quarter_turn(),
    ensures
        ({
            let (x, y, z) = (v.x.value(), v.y.value(), v.z.value());
            let none = no_turn();
            if turn == no_turn() {
                has_values(v.spec_rotated(none, none, none), x, y, z)
            } else {
                &&& has_values(v.spec_rotated(turn, none, none), z, y, -x)
                &&& has_values(v.spec_rotated(none, turn, none), x, -z, y)
                &&& has_values(v.spec_rotated(none, none, turn), -y, x, z)
            }
        }),
{
    let none = no_turn();
    lemma_yawed(v);
    let a = yawed(v, none);
    let b = yawed(v, turn);
    lemma_yawed(a);
    lemma_yawed(b);
    lemma_yawed(pitched(a, none));
    lemma_yawed(pitched(a, turn));
    lemma_yawed(pitched(b, none));
    assert(v.spec_rotated(none, none, none) == rolled(pitched(a, none), none));
    assert(v.spec_rotated(turn, none, none) == rolled(pitched(b, none), none));
    assert(v.spec_rotated(none, turn, none) == rolled(pitched(a, turn), none));
    assert(v.spec_rotated(none, none, turn) == rolled(pitched(a, none), turn));
}

/// A brightness falls into the layer that is nearest to its share of all layers.
pub proof fn law_layers_go_by_brightness(brightness: Double, layer_count: usize)
    requires
        is_weight(brightness),
        2 <= layer_count <= 0x10_0000,
    ensures
        ({
            let last = layer_count - 1;
            let band = spec_shade_band(brightness, layer_count);
            &&& band <= last
            &&& 0x2_0000_0000 * size(2 * (band * pow2(1074)) - 2 * (last * brightness.value()))
                <= 0x2_0000_0002 * pow2(1074)
        }),
{
    let unit = pow2(1074) as int;
    vstd::arithmetic::power2::lemma_pow2_pos(1074);
    let last = (layer_count - 1) as u64;
    let n = Double::integer(last);
    bounds::lemma_one();
    bounds::lemma_zero();
    let zero = Double { bits: 0 };
    zero.lemma_order(zero);
    brightness.lemma_order(n);
    monotone::lemma_integer(last);
    assert(brightness.clamp(Double::integer(0), Double::integer(1)) == brightness);
    vstd::arithmetic::power2::lemma2_to64();
    vstd::arithmetic::power2::lemma_pow2_adds(20, 1074);
    assert(last * unit <= 0x10_0000 * unit) by (nonlinear_arith)
        requires
            last <= 0x10_0000,
            unit > 0,
    ;
    bounds::lemma_product_bound(brightness, n, 1074, 1094);
    monotone::lemma_times_integer(brightness, last);
    bounds::lemma_product_sign(brightness, n);
    let product = brightness * n;
    product.lemma_order(brightness);
    let m = product.magnitude();
    let b = brightness.value();
    assert(0 <= last * b <= last * unit) by (nonlinear_arith)
        requires
            0 <= b <= unit,
            last >= 0,
    ;
    let whole = (2 * m + unit) / (2 * unit);
    vstd::arithmetic::div_mod::lemma_fundamental_div_mod(2 * m + unit, 2 * unit);
    vstd::arithmetic::div_mod::lemma_mod_bound(2 * m + unit, 2 * unit);
    assert(2 * unit * whole == 2 * (whole * unit)) by (nonlinear_arith);
    assert(size(2 * (whole * unit) - 2 * m) <= unit);
    // whole is no more than the last layer
    assert(whole <= last) by (nonlinear_arith)
        requires
            2 * (whole * unit) <= 2 * m + unit,
            0x20_0000_0000_0000 * (m - last * b) <= last * b,
            last * b <= last * unit,
            last <= 0x10_0000,
            unit > 0,
    ;
    assert(whole >= 0) by (nonlinear_arith)
        requires
            2 * (whole * unit) >= 2 * m - unit,
            m >= 0,
            unit > 0,
    ;
}

/// Two points are the ends of an edge of a triangle.
pub open spec fn touches(t: Triangle, l: usize, r: usize) -> bool {
    ||| (l == t.a && r == t.b) || (l == t.b && r == t.a)
    ||| (l == t.b && r == t.c) || (l == t.c && r == t.b)
    ||| (l == t.c && r == t.a) || (l == t.a && r == t.c)
}

/// How many of the first `k` triangles have an edge.
pub open spec fn touch_count(triangles: Seq<Triangle>, l: usize, r: usize, k: int) -> nat
    decreases k,
{
    if k <= 0 {
        0
    } else {
        touch_count(triangles, l, r, k - 1) + if touches(triangles[k - 1], l, r) {
            1nat
        } else {
            0nat
        }
    }
}

/// The brightness of those of the first `k` triangles that have an edge, added up.
pub open spec fn touch_light(
    triangles: Seq<Triangle>,
    brightness: Seq<Double>,
    l: usize,
    r: usize,
    k: int,
) -> Double
    decreases k,
{
    if k <= 0 {
        Double::integer(0)
    } else if touches(triangles[k - 1], l, r) {
        touch_light(triangles, brightness, l, r, k - 1) + brightness[k - 1]
    } else {
        touch_light(triangles, brightness, l, r, k - 1)
    }
}

spec fn lit_in_order(edges: Seq<LitEdge>) -> bool {
    forall|i: int, j: int|
        0 <= i < j < edges.len() ==> (#[trigger] edges[i]).left < (#[trigger] edges[j]).left || (
        edges[i].left == edges[j].left && edges[i].right < edges[j].right)
}

/// What is known of an edge after it, or another one, was lit.
proof fn lemma_lit(edges: Seq<LitEdge>, left: usize, right: usize, b: Double)
    requires
        lit_in_order(edges),
    ensures
        lit_in_order(lit(edges, left, right, b)),
        forall|i: int|
            0 <= i < lit(edges, left, right, b).len() ==> {
                let e = #[trigger] lit(edges, left, right, b)[i];
                if e.left == left && e.right == right {
                    e == first_light(left, right, b) && !is_lit(edges, left, right) || exists|j: int|
                        0 <= j < edges.len() && (#[trigger] edges[j]).left == left
                            && edges[j].right == right && e == more_light(edges[j], b)
                } else {
                    edges.contains(e)
                }
            },
        forall|j: int|
            0 <= j < edges.len() && !((#[trigger] edges[j]).left == left && edges[j].right == right)
                ==> lit(edges, left, right, b).contains(edges[j]),
        is_lit(lit(edges, left, right, b), left, right),
    decreases edges.len(),
{
    let after = lit(edges, left, right, b);
    if edges.len() == 0 {
        assert(after[0] == first_light(left, right, b));
        assert(is_lit(after, left, right));
    } else {
        let last = edges.last();
        let rest = edges.drop_last();
        if left < last.left || (left == last.left && right < last.right) {
            assert forall|i: int, j: int| 0 <= i < j < rest.len() implies (
            #[trigger] rest[i]).left < (#[trigger] rest[j]).left || (rest[i].left == rest[j].left
                && rest[i].right < rest[j].right) by {
                assert(rest[i] == edges[i] && rest[j] == edges[j]);
            }
            lemma_lit(rest, left, right, b);
            let inner = lit(rest, left, right, b);
            assert(after == inner.push(last));
            assert forall|i: int| 0 <= i < inner.len() implies (#[trigger] inner[i]).left < last.left
                || (inner[i].left == last.left && inner[i].right < last.right) by {
                let e = inner[i];
                if !(e.left == left && e.right == right) {
                    let j = choose|j: int| 0 <= j < rest.len() && rest[j] == e;
                    assert(edges[j] == e && edges[edges.len() - 1] == last);
                }
            }
            assert(is_lit(rest, left, right) == is_lit(edges, left, right)) by {
                if is_lit(rest, left, right) {
                    let j = choose|j: int|
                        0 <= j < rest.len() && (#[trigger] rest[j]).left == left && rest[j].right
                            == right;
                    assert(edges[j] == rest[j]);
                }
                if is_lit(edges, left, right) {
                    let j = choose|j: int|
                        0 <= j < edges.len() && (#[trigger] edges[j]).left == left
                            && edges[j].right == right;
                    assert(j < rest.len());
                    assert(rest[j] == edges[j]);
                }
            }
            assert forall|i: int| 0 <= i < after.len() implies {
                let e = #[trigger] after[i];
                if e.left == left && e.right == right {
                    e == first_light(left, right, b) && !is_lit(edges, left, right) || exists|j: int|
                        0 <= j < edges.len() && (#[trigger] edges[j]).left == left
                            && edges[j].right == right && e == more_light(edges[j], b)
                } else {
                    edges.contains(e)
                }
            } by {
                let e = after[i];
                if i < inner.len() {
                    assert(e == inner[i]);
                    if e.left == left && e.right == right {
                        if !(e == first_light(left, right, b) && !is_lit(rest, left, right)) {
                            let j = choose|j: int|
                                0 <= j < rest.len() && (#[trigger] rest[j]).left == left
                                    && rest[j].right == right && e == more_light(rest[j], b);
                            assert(edges[j] == rest[j]);
                        }
                    } else {
                        let j = choose|j: int| 0 <= j < rest.len() && rest[j] == e;
                        assert(edges[j] == e);
                    }
                } else {
                    assert(edges[edges.len() - 1] == e);
                }
            }
            assert forall|j: int|
                0 <= j < edges.len() && !((#[trigger] edges[j]).left == left && edges[j].right
                    == right) implies after.contains(edges[j]) by {
                if j < rest.len() {
                    assert(rest[j] == edges[j]);
                    let m = choose|m: int| 0 <= m < inner.len() && inner[m] == edges[j];
                    assert(after[m] == edges[j]);
                } else {
                    assert(after[inner.len() as int] == last);
                }
            }
            let m = choose|m: int|
                0 <= m < inner.len() && (#[trigger] inner[m]).left == left && inner[m].right
                    == right;
            assert(after[m] == inner[m]);
        } else if left == last.left && right == last.right {
            assert(after == rest.push(more_light(last, b)));
            assert(after[rest.len() as int] == more_light(last, b));
            assert(edges[edges.len() - 1] == last);
            assert forall|i: int| 0 <= i < after.len() implies {
                let e = #[trigger] after[i];
                if e.left == left && e.right == right {
                    e == first_light(left, right, b) && !is_lit(edges, left, right) || exists|j: int|
                        0 <= j < edges.len() && (#[trigger] edges[j]).left == left
                            && edges[j].right == right && e == more_light(edges[j], b)
                } else {
                    edges.contains(e)
                }
            } by {
                if i < rest.len() {
                    assert(after[i] == edges[i]);
                }
            }
            assert forall|j: int|
                0 <= j < edges.len() && !((#[trigger] edges[j]).left == left && edges[j].right
                    == right) implies after.contains(edges[j]) by {
                assert(after[j] == edges[j]);
            }
            assert forall|i: int, j: int| 0 <= i < j < after.len() implies (
            #[trigger] after[i]).left < (#[trigger] after[j]).left || (after[i].left
                == after[j].left && after[i].right < after[j].right) by {
                assert(after[i] == edges[i]);
                assert(after[j].left == edges[j].left && after[j].right == edges[j].right);
            }
        } else {
            let first = first_light(left, right, b);
            assert(after == edges.push(first));
            assert(after[edges.len() as int] == first);
            assert forall|i: int| 0 <= i < edges.len() implies (#[trigger] edges[i]).left < left || (
            edges[i].left == left && edges[i].right < right) by {
                if i < edges.len() - 1 {
                    assert(edges[i].left <= last.left);
                }
            }
            assert(!is_lit(edges, left, right));
            assert forall|i: int| 0 <= i < after.len() implies {
                let e = #[trigger] after[i];
                if e.left == left && e.right == right {
                    e == first && !is_lit(edges, left, right) || exists|j: int|
                        0 <= j < edges.len() && (#[trigger] edges[j]).left == left
                            && edges[j].right == right && e == more_light(edges[j], b)
                } else {
                    edges.contains(e)
                }
            } by {
                if i < edges.len() {
                    assert(after[i] == edges[i]);
                }
            }
            assert forall|j: int|
                0 <= j < edges.len() && !((#[trigger] edges[j]).left == left && edges[j].right
                    == right) implies after.contains(edges[j]) by {
                assert(after[j] == edges[j]);
            }
        }
    }
}

/// An edge has been lit.
spec fn is_lit(edges: Seq<LitEdge>, left: usize, right: usize) -> bool {
    exists|j: int|
        0 <= j < edges.len() && (#[trigger] edges[j]).left == left && edges[j].right == right
}

/// An edge has a sum and a count, or has not been lit where the count is none.
spec fn is_record(edges: Seq<LitEdge>, l: usize, r: usize, sum: Double, count: nat) -> bool {
    &&& is_lit(edges, l, r) == (count > 0)
    &&& forall|j: int|
        0 <= j < edges.len() && (#[trigger] edges[j]).left == l && edges[j].right == r
            ==> edges[j].sum == sum && edges[j].count == count
    &&& count == 0 ==> sum == Double::integer(0)
}

/// One edge of one triangle.
proof fn lemma_record(
    edges: Seq<LitEdge>,
    i: usize,
    j: usize,
    b: Double,
    l: usize,
    r: usize,
    sum: Double,
    count: nat,
)
    requires
        lit_in_order(edges),
        l < r,
        i != j,
        is_record(edges, l, r, sum, count),
        count < u64::MAX,
    ensures
        lit_in_order(spec_light(edges, i, j, b)),
        if (i == l && j == r) || (i == r && j == l) {
            is_record(spec_light(edges, i, j, b), l, r, sum + b, count + 1)
        } else {
            is_record(spec_light(edges, i, j, b), l, r, sum, count)
        },
{
    let (x, y) = if i < j {
        (i, j)
    } else {
        (j, i)
    };
    lemma_lit(edges, x, y, b);
    let after = lit(edges, x, y, b);
    assert(after == spec_light(edges, i, j, b));
    if x == l && y == r {
        assert forall|m: int|
            0 <= m < after.len() && (#[trigger] after[m]).left == l && after[m].right
                == r implies after[m].sum == sum + b && after[m].count == count + 1 by {
            if !(after[m] == first_light(l, r, b) && !is_lit(edges, l, r)) {
                let k = choose|k: int|
                    0 <= k < edges.len() && (#[trigger] edges[k]).left == l && edges[k].right == r
                        && after[m] == more_light(edges[k], b);
                assert(edges[k].count == count);
            }
        }
    } else {
        if is_lit(edges, l, r) {
            let k = choose|k: int|
                0 <= k < edges.len() && (#[trigger] edges[k]).left == l && edges[k].right == r;
            let m = choose|m: int| 0 <= m < after.len() && after[m] == edges[k];
            assert(after[m].left == l);
        }
        assert forall|m: int|
            0 <= m < after.len() && (#[trigger] after[m]).left == l && after[m].right
                == r implies after[m].sum == sum && after[m].count == count && is_lit(
            edges,
            l,
            r,
        ) by {
            let k = choose|k: int| 0 <= k < edges.len() && edges[k] == after[m];
            assert(edges[k].left == l);
        }
        if is_lit(after, l, r) {
            let m = choose|m: int|
                0 <= m < after.len() && (#[trigger] after[m]).left == l && after[m].right == r;
            assert(after[m].left == l);
        }
    }
}

proof fn lemma_records(
    triangles: Seq<Triangle>,
    brightness: Seq<Double>,
    l: usize,
    r: usize,
    k: int,
)
    requires
        0 <= k <= triangles.len() < u64::MAX,
        l < r,
        forall|i: int| 0 <= i < triangles.len() ==> (#[trigger] triangles[i]).is_proper(),
    ensures
        lit_in_order(lit_edges(triangles, brightness, k)),
        is_record(
            lit_edges(triangles, brightness, k),
            l,
            r,
            touch_light(triangles, brightness, l, r, k),
            touch_count(triangles, l, r, k),
        ),
        touch_count(triangles, l, r, k) <= k,
    decreases k,
{
    if k > 0 {
        lemma_records(triangles, brightness, l, r, k - 1);
        let t = triangles[k - 1];
        assert(t.is_proper());
        let b = brightness[k - 1];
        let before = lit_edges(triangles, brightness, k - 1);
        let sum = touch_light(triangles, brightness, l, r, k - 1);
        let count = touch_count(triangles, l, r, k - 1);
        let one = spec_light(before, t.a, t.b, b);
        let two = spec_light(one, t.b, t.c, b);
        lemma_record(before, t.a, t.b, b, l, r, sum, count);
        let first = (t.a == l && t.b == r) || (t.a == r && t.b == l);
        let second = (t.b == l && t.c == r) || (t.b == r && t.c == l);
        let (s1, c1) = if first {
            (sum + b, count + 1)
        } else {
            (sum, count)
        };
        lemma_record(one, t.b, t.c, b, l, r, s1, c1);
        let (s2, c2) = if second {
            (s1 + b, c1 + 1)
        } else {
            (s1, c1)
        };
        lemma_record(two, t.c, t.a, b, l, r, s2, c2);
    }
}

/// An edge that triangles share is shaded by the mean of their brightness: every edge of a mesh is
/// drawn once, by what the triangles that have it come to, over their number.
pub proof fn law_shared_edges_take_the_mean(
    triangles: Seq<Triangle>,
    brightness: Seq<Double>,
    layer_count: usize,
    l: usize,
    r: usize,
)
    requires
        triangles.len() < u64::MAX,
        l < r,
        forall|i: int| 0 <= i < triangles.len() ==> (#[trigger] triangles[i]).is_proper(),
    ensures
        ({
            let n = triangles.len() as int;
            let edges = lit_edges(triangles, brightness, n).map_values(
                |edge: LitEdge| shaded(edge, layer_count),
            );
            let count = touch_count(triangles, l, r, n);
            let mean = touch_light(triangles, brightness, l, r, n) / Double::integer(count as u64);
            &&& (exists|i: int|
                0 <= i < edges.len() && (#[trigger] edges[i]).left == l && edges[i].right == r) == (
            count > 0)
            &&& forall|i: int|
                0 <= i < edges.len() && (#[trigger] edges[i]).left == l && edges[i].right == r
                    ==> edges[i].band == spec_shade_band(mean, layer_count)
            &&& forall|i: int, j: int|
                0 <= i < j < edges.len() ==> (#[trigger] edges[i]).left != (
                #[trigger] edges[j]).left || edges[i].right != edges[j].right
        }),
{
    let n = triangles.len() as int;
    lemma_records(triangles, brightness, l, r, n);
    let plain = lit_edges(triangles, brightness, n);
    let edges = plain.map_values(|edge: LitEdge| shaded(edge, layer_count));
    if is_lit(plain, l, r) {
        let i = choose|i: int|
            0 <= i < plain.len() && (#[trigger] plain[i]).left == l && plain[i].right == r;
        assert(edges[i].left == l && edges[i].right == r);
    }
    assert forall|i: int|
        0 <= i < edges.len() && (#[trigger] edges[i]).left == l && edges[i].right == r implies
    plain[i].left == l && plain[i].right == r && is_lit(plain, l, r) by {
        assert(edges[i] == shaded(plain[i], layer_count));
        assert(plain[i].left == l);
    }
    assert forall|i: int, j: int| 0 <= i < j < edges.len() implies (#[trigger] edges[i]).left != (
    #[trigger] edges[j]).left || edges[i].right != edges[j].right by {
        assert(edges[i] == shaded(plain[i], layer_count));
        assert(edges[j] == shaded(plain[j], layer_count));
        assert(plain[i].left <= plain[j].left);
    }
}

/// The weight of a feature is greatest at its middle, and no greater the farther away: what it is
/// the exponential of is nothing there, and no more the farther out.
pub proof fn law_features_fade_with_distance(
    point: Point,
    other: Point,
    center: Point,
    radius_x: Double,
    radius_y: Double,
)
    requires
        epsilon().less(radius_x) && is_within(radius_x, 1100),
        epsilon().less(radius_y) && is_within(radius_y, 1100),
        is_within((point.x - center.x) / radius_x, 1100),
        is_within((point.y - center.y) / radius_y, 1100),
        is_within((other.x - center.x) / radius_x, 1100),
        is_within((other.y - center.y) / radius_y, 1100),
        ((point.x - center.x) / radius_x).magnitude() <= ((other.x - center.x)
            / radius_x).magnitude(),
        ((point.y - center.y) / radius_y).magnitude() <= ((other.y - center.y)
            / radius_y).magnitude(),
    ensures
        ({
            let near = feature_exponent(point, Some(center), radius_x, radius_y);
            let far = feature_exponent(other, Some(center), radius_x, radius_y);
            &&& near is Some && far is Some
            &&& far->0.at_most(near->0)
            &&& near->0.at_most(Double::integer(0))
        }),
        feature_exponent(point, None, radius_x, radius_y) is None,
{
    let (a, b) = ((point.x - center.x) / radius_x, (point.y - center.y) / radius_y);
    let (c, d) = ((other.x - center.x) / radius_x, (other.y - center.y) / radius_y);
    bounds::lemma_product_within(a, a, 1100);
    bounds::lemma_product_within(b, b, 1100);
    bounds::lemma_product_within(c, c, 1100);
    bounds::lemma_product_within(d, d, 1100);
    bounds::lemma_sum_within(a * a, b * b, 1126);
    bounds::lemma_sum_within(c * c, d * d, 1126);
    lemma_squares_order(a, c);
    lemma_squares_order(b, d);
    lemma_square_not_negative(a);
    lemma_square_not_negative(b);
    bounds::lemma_sum_sign(a * a, b * b);
    monotone::lemma_sum_order(a * a, b * b, c * c, d * d);
    let (s, t) = (a * a + b * b, c * c + d * d);
    s.lemma_order(t);
    let part = Double::ratio(1, 2);
    lemma_ratio_error(1, 2);
    bounds::lemma_ratio_positive(1, 2);
    monotone::lemma_scaled_order(part, s, t);
    lemma_opposite_factor(part, s);
    lemma_opposite_factor(part, t);
    bounds::lemma_zero();
    let zero = Double { bits: 0 };
    zero.lemma_order(zero);
}

/// A product by the opposite of a factor is the opposite.
proof fn lemma_opposite_factor(c: Double, x: Double)
    requires
        c.is_finite(),
        x.is_finite(),
    ensures
        !(c.negated() * x).nan(),
        (c.negated() * x).value() == -(c * x).value(),
{
    reveal(Double::spec_mul);
    reveal(Double::nearest);
    Double::lemma_format();
    vstd::arithmetic::power2::lemma_pow2_pos(1074);
    let d = c.negated();
    c.lemma_order(d);
    x.lemma_order(c);
    let n = c.magnitude() * x.magnitude();
    let unit = pow2(1074) as int;
    rounding::lemma_nearest_exists(n, unit, 52, patterns::infinity(52, 2047));
    let k = patterns::rounded(n, unit, 52, 2047);
    bounds::lemma_signed(true, k);
    bounds::lemma_signed(false, k);
}

/// A place in a box that is not rolled, or rolled by a quarter of a turn, goes by how far it is
/// from the middle of the box, in the directions of the face, over a little more than half of its
/// width and its height, up to rounding.
pub proof fn law_places_go_by_the_box(bounds: BoundingBox, point: Point)
    requires
        is_within(point.x - (bounds.x + half(bounds.width)), 1100),
        is_within(point.y - (bounds.y + half(bounds.height)), 1100),
        is_within(bounds.width, 1200),
        is_within(bounds.height, 1200),
    ensures
        ({
            let x = point.x - (bounds.x + half(bounds.width));
            let y = point.y - (bounds.y + half(bounds.height));
            let across = (bounds.width * Double::ratio(54, 100)).max(epsilon());
            let down = (bounds.height * Double::ratio(58, 100)).max(epsilon());
            let level = spec_canonical_face_coordinates(bounds, no_turn(), point);
            let turned = spec_canonical_face_coordinates(bounds, quarter_turn(), point);
            &&& is_quotient(level.x, x.value(), across)
            &&& is_quotient(level.y, y.value(), down)
            &&& is_quotient(turned.x, y.value(), across)
            &&& is_quotient(turned.y, -x.value(), down)
        }),
{
    let x = point.x - (bounds.x + half(bounds.width));
    let y = point.y - (bounds.y + half(bounds.height));
    let across = (bounds.width * Double::ratio(54, 100)).max(epsilon());
    let down = (bounds.height * Double::ratio(58, 100)).max(epsilon());
    lemma_room(bounds.width, 54);
    lemma_room(bounds.height, 58);
    lemma_turned(x, y);
    lemma_turned(x.negated(), y);
    let (zero, one) = (Double::integer(0), Double::integer(1));
    lemma_quotient_of(x * one + y * zero, x, across);
    lemma_quotient_of(x.negated() * zero + y * one, y, down);
    lemma_quotient_of(x * zero + y * one, y, across);
    lemma_quotient_of(x.negated() * one + y * zero, x.negated(), down);
    x.lemma_order(x.negated());
}

/// A value is a number over another value, up to rounding.
pub open spec fn is_quotient(q: Double, n: int, d: Double) -> bool {
    q.is_finite() && 0x20_0000_0000_0000 * size(q.value() * d.value() - n * pow2(1074)) <= size(n)
        * pow2(1074) + 0x10_0000_0000_0000 * d.value()
}

/// The room of a box is positive and not large.
proof fn lemma_room(w: Double, n: u64)
    requires
        is_within(w, 1200),
        0 < n <= 100,
    ensures
        ({
            let d = (w * Double::ratio(n, 100)).max(epsilon());
            d.is_finite() && pow2(1022) <= d.value()
        }),
{
    lemma_ratio_error(n, 100);
    let r = Double::ratio(n, 100);
    r.lemma_order(w);
    monotone::lemma_share_error(w, r);
    bounds::lemma_power_ratio();
    bounds::lemma_ratio_below(1, 4503599627370496, 1);
}

proof fn lemma_quotient_of(a: Double, x: Double, d: Double)
    requires
        a.is_finite(),
        is_within(x, 1100),
        a.value() == x.value(),
        d.is_finite(),
        pow2(1022) <= d.value(),
    ensures
        is_quotient(a / d, x.value(), d),
{
    let unit = pow2(1074) as int;
    vstd::arithmetic::power2::lemma_pow2_pos(1074);
    vstd::arithmetic::power2::lemma_pow2_pos(1022);
    a.lemma_order(x);
    vstd::arithmetic::power2::lemma_pow2_adds(1100, 1074);
    vstd::arithmetic::power2::lemma_pow2_adds(1152, 1022);
    let (m, t) = (a.magnitude(), d.value());
    assert(m * unit <= pow2(1152) * t) by (nonlinear_arith)
        requires
            0 <= m <= pow2(1100),
            pow2(1100) * unit == pow2(1152) * pow2(1022),
            pow2(1022) <= t,
            unit > 0,
            pow2(1152) >= 0,
    ;
    monotone::lemma_quotient_error(a, d, 1152);
}

/// What a surface reflects, beside what all surfaces do.
spec fn reflected(normal: Vector) -> Double {
    visibility_of(normal) * (Double::ratio(12, 100) + diffuse_of(normal) * Double::ratio(55, 100))
}

spec fn diffuse_of(normal: Vector) -> Double {
    (normal.x * Double::ratio(24, 100).negated() + normal.y * Double::ratio(18, 100) + normal.z
        * Double::ratio(954, 1000)).clamp(Double::integer(0), Double::integer(1))
}

spec fn visibility_of(normal: Vector) -> Double {
    ((normal.z + Double::ratio(12, 100)) / Double::ratio(52, 100)).clamp(
        Double::integer(0),
        Double::integer(1),
    )
}

pub open spec fn is_small_vector(v: Vector) -> bool {
    is_within(v.x, 1084) && is_within(v.y, 1084) && is_within(v.z, 1084)
}

/// What is clamped between nothing and one.
proof fn lemma_clamped(x: Double)
    requires
        !x.nan(),
    ensures
        ({
            let c = x.clamp(Double::integer(0), Double::integer(1));
            &&& c.is_finite()
            &&& 0 <= c.value() <= pow2(1074)
            &&& x.value() <= 0 ==> c.value() == 0
        }),
{
    bounds::lemma_one();
    bounds::lemma_zero();
    vstd::arithmetic::power2::lemma_pow2_pos(1074);
    let zero = Double { bits: 0 };
    zero.lemma_order(zero);
    x.lemma_order(Double::integer(1));
}

/// What a surface reflects is finite and not negative, and nothing where it is turned away.
proof fn lemma_reflected(normal: Vector)
    requires
        is_small_vector(normal),
    ensures
        is_within(reflected(normal), 1076),
        reflected(normal).value() >= 0,
        (normal.z + Double::ratio(12, 100)).value() <= 0 ==> reflected(normal).value() == 0,
{
    let unit = pow2(1074) as int;
    vstd::arithmetic::power2::lemma_pow2_pos(1074);
    lemma_ratio_error(24, 100);
    lemma_ratio_error(18, 100);
    lemma_ratio_error(954, 1000);
    lemma_ratio_error(12, 100);
    lemma_ratio_error(52, 100);
    lemma_ratio_error(55, 100);
    let (a, b, c) = (Double::ratio(24, 100).negated(), Double::ratio(18, 100), Double::ratio(954, 1000));
    a.lemma_order(Double::ratio(24, 100));
    b.lemma_order(c);
    bounds::lemma_product_bound(normal.x, a, 1084, 1074);
    bounds::lemma_product_bound(normal.y, b, 1084, 1074);
    bounds::lemma_product_bound(normal.z, c, 1084, 1074);
    bounds::lemma_sum_within(normal.x * a, normal.y * b, 1084);
    bounds::lemma_within_wider(normal.z * c, 1084, 1085);
    bounds::lemma_sum_within(normal.x * a + normal.y * b, normal.z * c, 1085);
    lemma_clamped(normal.x * a + normal.y * b + normal.z * c);
    let dark = Double::ratio(12, 100);
    let range = Double::ratio(52, 100);
    dark.lemma_order(range);
    bounds::lemma_ratio_positive(52, 100);
    vstd::arithmetic::power2::lemma_pow2_strictly_increases(1074, 1084);
    bounds::lemma_sum_within(normal.z, dark, 1084);
    let front = normal.z + dark;
    let zero = Double { bits: 0 };
    bounds::lemma_zero();
    zero.lemma_order(zero);
    turning::lemma_quotient_order_signed(front, front, range);
    if front.value() <= 0 {
        turning::lemma_quotient_order_signed(front, zero, range);
        monotone::lemma_zero_over(zero, range);
    }
    lemma_clamped(front / range);
    let (v, d) = (visibility_of(normal), diffuse_of(normal));
    let share = Double::ratio(55, 100);
    d.lemma_order(share);
    v.lemma_order(share);
    monotone::lemma_share_error(d, share);
    (d * share).lemma_order(d);
    monotone::lemma_scaled_order(share, zero, zero);
    bounds::lemma_ratio_positive(55, 100);
    placing::lemma_factors_commute(d, share);
    monotone::lemma_scaled_order(share, d, d);
    bounds::lemma_sum_within(dark, d * share, 1074);
    let inner = dark + d * share;
    bounds::lemma_zero();
    monotone::lemma_sum_order(zero, zero, dark, d * share);
    bounds::lemma_plus_zero(zero, zero);
    inner.lemma_order(v);
    bounds::lemma_product_bound(v, inner, 1074, 1075);
    bounds::lemma_within_wider(v * inner, 1075, 1076);
    if v.value() == 0 {
        bounds::lemma_zero_product(v, inner);
        (v * inner).lemma_order(v);
    } else {
        monotone::lemma_product_order(v, inner, v, inner);
    }
}

/// A surface that is turned away from the front is no brighter than any other one of its depth, and
/// of two surfaces with one direction the one that is farther to the front is no darker.
pub proof fn law_surfaces_turned_away_are_darkest(
    away: Vector,
    normal: Vector,
    depth: Double,
    nearer: Double,
)
    requires
        is_small_vector(away),
        is_small_vector(normal),
        (away.z + Double::ratio(12, 100)).at_most(Double::integer(0)),
        is_weight(depth),
        is_weight(nearer),
        depth.at_most(nearer),
    ensures
        surface_brightness(away, depth).at_most(surface_brightness(normal, depth)),
        surface_brightness(normal, depth).at_most(surface_brightness(normal, nearer)),
{
    vstd::arithmetic::power2::lemma_pow2_pos(1074);
    bounds::lemma_zero();
    bounds::lemma_one();
    let zero = Double { bits: 0 };
    zero.lemma_order(zero);
    lemma_reflected(away);
    lemma_reflected(normal);
    lemma_ratio_error(18, 100);
    lemma_ratio_error(10, 100);
    bounds::lemma_ratio_positive(10, 100);
    let (base, share) = (Double::ratio(18, 100), Double::ratio(10, 100));
    base.lemma_order(share);
    depth.lemma_order(nearer);
    monotone::lemma_share_error(depth, share);
    monotone::lemma_share_error(nearer, share);
    (depth * share).lemma_order(depth);
    (nearer * share).lemma_order(nearer);
    placing::lemma_factors_commute(depth, share);
    placing::lemma_factors_commute(nearer, share);
    monotone::lemma_scaled_order(share, depth, nearer);
    let (r, s) = (reflected(away), reflected(normal));
    bounds::lemma_within_wider(base, 1074, 1076);
    bounds::lemma_sum_within(base, r, 1076);
    bounds::lemma_sum_within(base, s, 1076);
    monotone::lemma_sum_order(base, r, base, s);
    bounds::lemma_within_wider(depth * share, 1074, 1077);
    bounds::lemma_within_wider(nearer * share, 1074, 1077);
    bounds::lemma_sum_within(base + r, depth * share, 1077);
    bounds::lemma_sum_within(base + s, depth * share, 1077);
    bounds::lemma_sum_within(base + s, nearer * share, 1077);
    monotone::lemma_sum_order(base + r, depth * share, base + s, depth * share);
    monotone::lemma_sum_order(base + s, depth * share, base + s, nearer * share);
    lemma_clamped(base + r + depth * share);
    lemma_clamped(base + s + depth * share);
    lemma_clamped(base + s + nearer * share);
    assert(surface_brightness(away, depth) == (base + r + depth * share).clamp(
        Double::integer(0),
        Double::integer(1),
    ));
    assert(surface_brightness(normal, depth) == (base + s + depth * share).clamp(
        Double::integer(0),
        Double::integer(1),
    ));
    assert(surface_brightness(normal, nearer) == (base + s + nearer * share).clamp(
        Double::integer(0),
        Double::integer(1),
    ));
}

} // verus!
