//! How far a mesh is warped when a head is turned.

use vstd::prelude::*;
use vstd::arithmetic::power2::pow2;
use crate::bounds;
use crate::bounds::is_within;
use crate::camera::mesh::half;
use crate::camera::relief;
use crate::camera::warp::{
    axis_from, between, chin_of, envelope_of, eyes_of, inserted, inserted_optional, is_level,
    levelled, limit_at, lowest, spec_interpolate_axis_x, spec_side_limit, spec_yaw_visibility_axis,
    warp_margin, warp_strength, warped, EyeFeatureEnvelope,
};
use crate::double::Double;
use crate::model;
use crate::model::{epsilon, FaceView, LandmarkKind, Point};
use crate::monotone;
use crate::monotone::size;
use crate::patterns;
use crate::placing;
use crate::smoothing;

verus! {

/// The whole way from weak to strong.
proof fn lemma_range()
    ensures
        (Double::integer(45) - Double::integer(18)).is_finite(),
        (Double::integer(45) - Double::integer(18)).value() == 27 * pow2(1074),
        Double::integer(18).is_finite(),
        Double::integer(18).value() == 18 * pow2(1074),
{
    monotone::lemma_integer(45);
    monotone::lemma_integer(18);
    monotone::lemma_integer(27);
    let (a, b, c) = (Double::integer(45), Double::integer(18), Double::integer(27));
    bounds::lemma_signed(!b.negative(), b.pattern() as int);
    b.lemma_order(b.negated());
    bounds::lemma_sum_between(a, b.negated(), c, c);
}

/// A quotient of equal values is one.
pub(crate) proof fn lemma_over_itself(a: Double, b: Double)
    requires
        a.is_finite(),
        b.is_finite(),
        a.value() == b.value(),
        a.value() > 0,
    ensures
        (a / b).is_finite(),
        (a / b).value() == pow2(1074),
{
    let unit = pow2(1074) as int;
    vstd::arithmetic::power2::lemma_pow2_pos(1074);
    a.lemma_order(b);
    reveal(Double::spec_div);
    let m = a.magnitude();
    assert(m * unit == unit * m) by (nonlinear_arith);
    bounds::lemma_nearest_within(false, m * unit, m, 1074);
    reveal(Double::nearest);
    bounds::lemma_power_pattern(1074);
    bounds::lemma_rounds_above(m * unit, m, bounds::power_pattern(1074));
    let k = crate::patterns::rounded(m * unit, m, 52, 2047);
    bounds::lemma_signed(false, k);
    if bounds::power_pattern(1074) < k {
        crate::rounding::lemma_mag_increases(bounds::power_pattern(1074), k, 52);
    }
}

/// A mesh is not warped up to eighteen degrees of yaw, to either side, and warped in full from
/// forty-five degrees on; in between, more for a stronger turn.
pub proof fn law_strength_grows_with_the_turn(yaw: Double, other: Double)
    requires
        yaw.is_finite(),
        other.is_finite(),
    ensures
        yaw.magnitude() <= 18 * pow2(1074) ==> warp_strength(yaw).value() == 0,
        yaw.magnitude() >= 45 * pow2(1074) ==> warp_strength(yaw).value() == pow2(1074),
        yaw.magnitude() <= other.magnitude() ==> warp_strength(yaw).at_most(warp_strength(other)),
        warp_strength(yaw).is_finite(),
        0 <= warp_strength(yaw).value() <= pow2(1074),
{
    lemma_strength(yaw);
    lemma_strength(other);
    lemma_range();
    bounds::lemma_one();
    bounds::lemma_zero();
    vstd::arithmetic::power2::lemma_pow2_pos(1074);
    let zero = Double { bits: 0 };
    zero.lemma_order(zero);
    let (a, b) = (yaw.abs(), other.abs());
    a.lemma_order(yaw);
    b.lemma_order(other);
    let low = Double::integer(18);
    let range = Double::integer(45) - low;
    if yaw.magnitude() <= other.magnitude() {
        monotone::lemma_difference_order(a, low, b, low);
        let (x, y) = (a - low, b - low);
        if !x.infinite() && !y.infinite() {
            lemma_quotient_order_signed(x, y, range);
        }
    }
}

/// The strength of one turn.
proof fn lemma_strength(yaw: Double)
    requires
        yaw.is_finite(),
    ensures
        yaw.magnitude() <= 18 * pow2(1074) ==> warp_strength(yaw).value() == 0,
        yaw.magnitude() >= 45 * pow2(1074) ==> warp_strength(yaw).value() == pow2(1074),
        warp_strength(yaw).is_finite(),
        0 <= warp_strength(yaw).value() <= pow2(1074),
        !(yaw.abs() - Double::integer(18)).nan(),
        !(yaw.abs() - Double::integer(18)).infinite(),
        !((yaw.abs() - Double::integer(18)) / (Double::integer(45) - Double::integer(18))).nan(),
{
    lemma_range();
    bounds::lemma_one();
    bounds::lemma_zero();
    let unit = pow2(1074) as int;
    vstd::arithmetic::power2::lemma_pow2_pos(1074);
    let zero = Double { bits: 0 };
    zero.lemma_order(zero);
    let a = yaw.abs();
    a.lemma_order(yaw);
    let low = Double::integer(18);
    let range = Double::integer(45) - low;
    monotone::lemma_integer(18);
    monotone::lemma_integer(45);
    let top = Double::integer(45);
    // the difference is finite: it lies between minus eighteen and the angle
    let least = low.negated();
    bounds::lemma_signed(!low.negative(), low.pattern() as int);
    low.lemma_order(least);
    bounds::lemma_sum_between(a, least, least, a);
    let x = a - low;
    x.lemma_order(range);
    warp_strength(yaw).lemma_order(Double::integer(1));
    if yaw.magnitude() <= 18 * pow2(1074) {
        monotone::lemma_difference_order(a, low, low, low);
        lemma_nothing_left(low);
        lemma_quotient_order_signed(x, zero, range);
        monotone::lemma_zero_over(zero, range);
    } else {
        monotone::lemma_difference_order(low, low, a, low);
        lemma_nothing_left(low);
        lemma_quotient_order_signed(zero, x, range);
        monotone::lemma_zero_over(zero, range);
        if yaw.magnitude() >= 45 * pow2(1074) {
            monotone::lemma_difference_order(top, low, a, low);
            lemma_over_itself(range, range);
            lemma_quotient_order_signed(range, x, range);
        }
    }
}

proof fn lemma_nothing_left(x: Double)
    requires
        x.is_finite(),
    ensures
        (x - x).value() == 0,
        !(x - x).nan(),
{
    reveal(Double::spec_add);
    x.lemma_order(x.negated());
    bounds::lemma_signed(x.negative() && x.negated().negative(), 0);
    (x - x).lemma_order(x);
}

/// Quotients by one positive value keep the order of what is divided.
pub(crate) proof fn lemma_quotient_order_signed(x: Double, y: Double, d: Double)
    requires
        x.is_finite(),
        y.is_finite(),
        d.is_finite(),
        d.value() > 0,
        x.value() <= y.value(),
    ensures
        !(x / d).nan(),
        !(y / d).nan(),
        (x / d).value() <= (y / d).value(),
{
    let unit = pow2(1074) as int;
    vstd::arithmetic::power2::lemma_pow2_pos(1074);
    x.lemma_order(y);
    d.lemma_order(x);
    reveal(Double::spec_div);
    let (p, q, m) = (x.magnitude(), y.magnitude(), d.magnitude());
    bounds::lemma_nearest_signed(x.negative(), p * unit, m);
    bounds::lemma_nearest_signed(y.negative(), q * unit, m);
    monotone::lemma_nearest_order(p * unit, m, p * unit, m);
    monotone::lemma_nearest_order(q * unit, m, q * unit, m);
    if p <= q {
        assert(p * unit * m <= q * unit * m) by (nonlinear_arith)
            requires
                p <= q,
                unit > 0,
                m > 0,
        ;
        monotone::lemma_nearest_order(p * unit, m, q * unit, m);
    } else {
        assert(q * unit * m <= p * unit * m) by (nonlinear_arith)
            requires
                q <= p,
                unit > 0,
                m > 0,
        ;
        monotone::lemma_nearest_order(q * unit, m, p * unit, m);
    }
    if p == 0 {
        monotone::lemma_zero_over(x, d);
    }
    if q == 0 {
        monotone::lemma_zero_over(y, d);
    }
}

/// What is beyond the limit of the hidden side is drawn towards it by the strength of the warp: it
/// is the mean of its place and the limit, the limit counting the strength; at full strength it is
/// drawn to the limit, and at none it stays.
pub proof fn law_wing_is_drawn_in(face: FaceView, vertices: Seq<Point>, i: int)
    requires
        0 <= i < vertices.len(),
        face.yaw_radians is Some,
        face.yaw_radians->0.to_degrees().is_finite(),
        spec_yaw_visibility_axis(face).len() >= 2,
        is_within(vertices[i].x, 1574),
        is_within(limit_at(face, face.yaw_radians->0.to_degrees(), vertices[i].y), 1574),
    ensures
        ({
            let yaw = face.yaw_radians->0.to_degrees();
            let limit = limit_at(face, yaw, vertices[i].y);
            let (x, moved) = (vertices[i].x, warped(face, vertices)[i].x);
            let beyond = if Double::integer(0).less(yaw) {
                limit.less(x)
            } else {
                x.less(limit)
            };
            &&& warped(face, vertices)[i].y == vertices[i].y
            &&& beyond && epsilon().less(warp_strength(yaw)) ==> smoothing::is_mean(
                moved,
                limit,
                x,
                Double::integer(1) - warp_strength(yaw),
            )
            &&& beyond && yaw.magnitude() >= 45 * pow2(1074) ==> moved.value() == limit.value()
            &&& !beyond || yaw.magnitude() <= 18 * pow2(1074) ==> moved == x
        }),
{
    let yaw = face.yaw_radians->0.to_degrees();
    let strength = warp_strength(yaw);
    law_strength_grows_with_the_turn(yaw, yaw);
    let limit = limit_at(face, yaw, vertices[i].y);
    let x = vertices[i].x;
    let one = Double::integer(1);
    bounds::lemma_one();
    bounds::lemma_power_ratio();
    bounds::lemma_zero();
    vstd::arithmetic::power2::lemma_pow2_pos(1022);
    vstd::arithmetic::power2::lemma_pow2_pos(1074);
    let share = one - strength;
    strength.lemma_order(one);
    let zero = Double { bits: 0 };
    zero.lemma_order(zero);
    bounds::lemma_signed(!strength.negative(), strength.pattern() as int);
    strength.lemma_order(strength.negated());
    bounds::lemma_sum_between(one, strength.negated(), zero, one);
    smoothing::law_smoothed_is_mean(limit, x, share);
    if yaw.magnitude() >= 45 * pow2(1074) {
        bounds::lemma_sum_between(one, strength.negated(), zero, zero);
        share.lemma_order(zero);
        bounds::lemma_sum_within(x, limit, 1574);
        bounds::lemma_zero_product(x - limit, share);
        bounds::lemma_plus_zero(limit, (x - limit) * share);
        lemma_epsilon_small();
    }
}

proof fn lemma_epsilon_small()
    ensures
        !Double::integer(1).at_most(epsilon()),
        epsilon().value() < pow2(1074),
{
    bounds::lemma_ratio_below(1, 4503599627370496, 1);
    bounds::lemma_one();
    vstd::arithmetic::power2::lemma_pow2_adds(3, 1071);
    vstd::arithmetic::power2::lemma_pow2_pos(1071);
    vstd::arithmetic::power2::lemma2_to64();
}

/// The points of an axis, from the lowest up.
pub open spec fn is_axis(axis: Seq<Point>) -> bool {
    &&& axis.len() >= 2
    &&& forall|j: int|
        0 <= j < axis.len() ==> is_within((#[trigger] axis[j]).x, 1574) && is_within(
            axis[j].y,
            1574,
        )
    &&& forall|j: int, k: int|
        0 <= j < k < axis.len() ==> (#[trigger] axis[j]).y.less((#[trigger] axis[k]).y)
}

/// How far up a height is between two others.
pub open spec fn share_between(low: Double, high: Double, y: Double) -> Double {
    (y - low) / (high - low)
}

/// The axis of a face goes straight from one of its points to the next: between two of them it is
/// their mean by how far up it is, and beyond its ends it stays where they are.
pub proof fn law_axis_goes_through_its_points(axis: Seq<Point>, j: int, y: Double)
    requires
        is_axis(axis),
        0 <= j < axis.len() - 1,
        is_within(y, 1574),
    ensures
        y.at_most(axis[0].y) ==> spec_interpolate_axis_x(axis, y) == axis[0].x,
        axis[axis.len() - 1].y.at_most(y) ==> spec_interpolate_axis_x(axis, y) == axis[axis.len()
            - 1].x,
        axis[j].y.less(y) && y.less(axis[j + 1].y) ==> smoothing::is_mean(
            spec_interpolate_axis_x(axis, y),
            axis[j].x,
            axis[j + 1].x,
            share_between(axis[j].y, axis[j + 1].y, y),
        ),
{
    let n = axis.len() as int;
    assert(axis[0].y.less(axis[n - 1].y));
    if axis[j].y.less(y) && y.less(axis[j + 1].y) {
        if 0 < j {
            assert(axis[0].y.less(axis[j].y));
        }
        if j + 1 < n - 1 {
            assert(axis[j + 1].y.less(axis[n - 1].y));
        }
        lemma_axis_from(axis, j, y, 0);
        let (low, high) = (axis[j], axis[j + 1]);
        let share = share_between(low.y, high.y, y);
        bounds::lemma_sum_within(y, low.y, 1574);
        bounds::lemma_sum_within(high.y, low.y, 1574);
        monotone::lemma_difference_order(low.y, low.y, y, low.y);
        monotone::lemma_difference_order(y, low.y, high.y, low.y);
        monotone::lemma_difference_error(high.y, low.y);
        lemma_nothing_left(low.y);
        let (part, whole) = (y - low.y, high.y - low.y);
        bounds::lemma_one();
        let zero = Double { bits: 0 };
        zero.lemma_order(zero);
        assert(whole.value() > 0);
        lemma_quotient_order_signed(zero, part, whole);
        lemma_quotient_order_signed(part, whole, whole);
        monotone::lemma_zero_over(zero, whole);
        lemma_over_itself(whole, whole);
        share.lemma_order(whole / whole);
        smoothing::law_smoothed_is_mean(low.x, high.x, share);
    }
}

proof fn lemma_axis_from(axis: Seq<Point>, j: int, y: Double, i: int)
    requires
        is_axis(axis),
        0 <= i <= j < axis.len() - 1,
        axis[j].y.less(y),
        y.less(axis[j + 1].y),
    ensures
        axis_from(axis, y, i) == between(axis[j], axis[j + 1], y),
    decreases j - i,
{
    if i < j {
        if i + 1 < j {
            assert(axis[i + 1].y.less(axis[j].y));
        }
        assert(!y.at_most(axis[i + 1].y));
        lemma_axis_from(axis, j, y, i + 1);
    }
}

/// The envelope of eyes and eyebrows holds each of their points, and no less space would.
pub proof fn law_envelope_holds_its_points(points: Seq<Point>, k: int)
    requires
        0 < k <= points.len(),
        forall|i: int|
            0 <= i < k ==> !(#[trigger] points[i]).x.nan() && !points[i].y.nan(),
    ensures
        envelope_of(points, k) matches Some(space) && {
            &&& forall|i: int|
                0 <= i < k ==> space.min_x.at_most((#[trigger] points[i]).x) && points[i].x.at_most(
                    space.max_x,
                ) && space.min_y.at_most(points[i].y) && points[i].y.at_most(space.max_y)
            &&& exists|i: int| 0 <= i < k && (#[trigger] points[i]).x == space.min_x
            &&& exists|i: int| 0 <= i < k && (#[trigger] points[i]).x == space.max_x
            &&& exists|i: int| 0 <= i < k && (#[trigger] points[i]).y == space.min_y
            &&& exists|i: int| 0 <= i < k && (#[trigger] points[i]).y == space.max_y
        },
    decreases k,
{
    if k > 1 {
        law_envelope_holds_its_points(points, k - 1);
        let before = envelope_of(points, k - 1)->0;
        let p = points[k - 1];
        let a = choose|i: int| 0 <= i < k - 1 && (#[trigger] points[i]).x == before.min_x;
        let b = choose|i: int| 0 <= i < k - 1 && (#[trigger] points[i]).x == before.max_x;
        let c = choose|i: int| 0 <= i < k - 1 && (#[trigger] points[i]).y == before.min_y;
        let d = choose|i: int| 0 <= i < k - 1 && (#[trigger] points[i]).y == before.max_y;
        let space = before.with(p);
        assert(envelope_of(points, k) == Some(space));
        assert(points[a].x == space.min_x || points[k - 1].x == space.min_x);
        assert(points[b].x == space.max_x || points[k - 1].x == space.max_x);
        assert(points[c].y == space.min_y || points[k - 1].y == space.min_y);
        assert(points[d].y == space.max_y || points[k - 1].y == space.max_y);
    } else {
        assert(envelope_of(points, 0) is None);
        assert(points[0] == points[k - 1]);
    }
}

/// Points in the order of their heights.
pub open spec fn is_rising(points: Seq<Point>) -> bool {
    forall|i: int, j: int|
        0 <= i < j < points.len() ==> (#[trigger] points[i]).y.rank() <= (
        #[trigger] points[j]).y.rank()
}

proof fn lemma_inserted(points: Seq<Point>, point: Point)
    requires
        is_rising(points),
    ensures
        is_rising(inserted(points, point)),
        inserted(points, point).len() == points.len() + 1,
        forall|p: Point| #[trigger]
            inserted(points, point).contains(p) == (points.contains(p) || p == point),
    decreases points.len(),
{
    let after = inserted(points, point);
    if points.len() > 0 && point.y.precedes(points.last().y) {
        let rest = points.drop_last();
        assert forall|i: int, j: int| 0 <= i < j < rest.len() implies (
        #[trigger] rest[i]).y.rank() <= (#[trigger] rest[j]).y.rank() by {
            assert(rest[i] == points[i] && rest[j] == points[j]);
        }
        lemma_inserted(rest, point);
        let inner = inserted(rest, point);
        assert(after == inner.push(points.last()));
        assert forall|i: int| 0 <= i < inner.len() implies (#[trigger] inner[i]).y.rank()
            <= points.last().y.rank() by {
            assert(inner.contains(inner[i]));
            if rest.contains(inner[i]) {
                let j = choose|j: int| 0 <= j < rest.len() && rest[j] == inner[i];
                assert(points[j] == inner[i] && points[points.len() - 1] == points.last());
            }
        }
        assert forall|p: Point| #[trigger] after.contains(p) == (points.contains(p) || p == point) by {
            assert(inner.contains(p) == (rest.contains(p) || p == point));
            if inner.contains(p) {
                let m = choose|m: int| 0 <= m < inner.len() && inner[m] == p;
                assert(after[m] == p);
            }
            if rest.contains(p) {
                let m = choose|m: int| 0 <= m < rest.len() && rest[m] == p;
                assert(points[m] == p);
            }
            if points.contains(p) {
                let m = choose|m: int| 0 <= m < points.len() && points[m] == p;
                if m < rest.len() {
                    assert(rest[m] == p);
                } else {
                    assert(after[inner.len() as int] == p);
                }
            }
            if after.contains(p) {
                let m = choose|m: int| 0 <= m < after.len() && after[m] == p;
                if m < inner.len() {
                    assert(inner[m] == p);
                } else {
                    assert(points[points.len() - 1] == p);
                }
            }
        }
    } else {
        assert(after == points.push(point));
        assert forall|i: int| 0 <= i < points.len() implies (#[trigger] points[i]).y.rank()
            <= point.y.rank() by {
            if i < points.len() - 1 {
                assert(points[i].y.rank() <= points[points.len() - 1].y.rank());
            }
        }
        assert forall|p: Point| #[trigger] after.contains(p) == (points.contains(p) || p == point) by {
            if points.contains(p) {
                let m = choose|m: int| 0 <= m < points.len() && points[m] == p;
                assert(after[m] == p);
            }
            if p == point {
                assert(after[points.len() as int] == p);
            }
            if after.contains(p) {
                let m = choose|m: int| 0 <= m < after.len() && after[m] == p;
                if m < points.len() {
                    assert(points[m] == p);
                }
            }
        }
    }
}

proof fn lemma_levelled(points: Seq<Point>, k: int)
    requires
        is_rising(points),
        0 <= k <= points.len(),
    ensures
        ({
            let kept = levelled(points, k);
            &&& is_rising(kept)
            &&& k > 0 ==> kept.len() > 0
            &&& forall|i: int|
                0 <= i < kept.len() ==> exists|j: int|
                    0 <= j < k && #[trigger] points[j] == #[trigger] kept[i]
            &&& forall|j: int|
                0 <= j < k ==> is_on_or_level(kept, #[trigger] points[j])
        }),
    decreases k,
{
    if k > 0 {
        lemma_levelled(points, k - 1);
        let before = levelled(points, k - 1);
        let kept = levelled(points, k);
        let last = points[k - 1];
        let level = before.len() > 0 && is_level(last, before.last());
        assert forall|i: int| 0 <= i < before.len() implies (#[trigger] before[i]).y.rank()
            <= last.y.rank() by {
            let j = choose|j: int| 0 <= j < k - 1 && #[trigger] points[j] == before[i];
            assert(points[j].y.rank() <= points[k - 1].y.rank());
        }
        assert forall|j: int| 0 <= j < k implies is_on_or_level(kept, #[trigger] points[j]) by {
            if j < k - 1 {
                assert(is_on_or_level(before, points[j]));
                let i = choose|i: int|
                    0 <= i < before.len() && (#[trigger] before[i] == points[j] || is_level(
                        points[j],
                        before[i],
                    ));
                assert(kept[i] == before[i]);
            } else if level {
                assert(kept[before.len() - 1] == before.last());
            } else {
                assert(kept[before.len() as int] == last);
            }
        }
        assert forall|i: int| 0 <= i < kept.len() implies exists|j: int|
            0 <= j < k && #[trigger] points[j] == #[trigger] kept[i] by {
            if i < before.len() {
                assert(kept[i] == before[i]);
                let j = choose|j: int| 0 <= j < k - 1 && #[trigger] points[j] == before[i];
                assert(points[j] == kept[i]);
            } else {
                assert(points[k - 1] == kept[i]);
            }
        }
    }
}

/// A point is one of some points, or level with one of them.
pub open spec fn is_on_or_level(points: Seq<Point>, point: Point) -> bool {
    exists|i: int|
        0 <= i < points.len() && (#[trigger] points[i] == point || is_level(point, points[i]))
}

/// The axis of a face rises through its features: from the chin, the mouth, the nose and the eyes,
/// as far as they are there, to the upper edge of its box. Each of them is on it, or is level with
/// one that is, and nothing else is on it.
pub proof fn law_axis_rises_through_the_features(face: FaceView)
    ensures
        ({
            let axis = spec_yaw_visibility_axis(face);
            let (eyes, chin) = (eyes_of(face), chin_of(face));
            let nose = model::spec_nose(face.landmarks);
            let mouth = model::spec_region_center(face.landmarks, LandmarkKind::OuterLips);
            let height = face.bounding_box.y + face.bounding_box.height;
            &&& is_rising(axis)
            &&& axis.len() > 0
            &&& eyes is Some ==> is_on_or_level(axis, eyes->0)
            &&& nose is Some ==> is_on_or_level(axis, nose->0)
            &&& mouth is Some ==> is_on_or_level(axis, mouth->0)
            &&& chin is Some ==> is_on_or_level(axis, chin->0)
            &&& forall|i: int|
                0 <= i < axis.len() ==> Some(#[trigger] axis[i]) == eyes || Some(axis[i]) == nose
                    || Some(axis[i]) == mouth || Some(axis[i]) == chin || axis[i].y == height
        }),
{
    let bounds = face.bounding_box;
    let (eyes, chin) = (eyes_of(face), chin_of(face));
    let nose = model::spec_nose(face.landmarks);
    let mouth = model::spec_region_center(face.landmarks, LandmarkKind::OuterLips);
    let top = Point {
        x: match (eyes, nose) {
            (Some(eyes), _) => eyes.x,
            (None, Some(nose)) => nose.x,
            (None, None) => bounds.x + half(bounds.width),
        },
        y: bounds.y + bounds.height,
    };
    let s0 = seq![top];
    assert forall|p: Point| #[trigger] s0.contains(p) == (p == top) by {
        assert(s0[0] == top);
    }
    let s1 = inserted_optional(s0, eyes);
    let s2 = inserted_optional(s1, nose);
    let s3 = inserted_optional(s2, mouth);
    let s4 = inserted_optional(s3, chin);
    if eyes is Some {
        lemma_inserted(s0, eyes->0);
    }
    if nose is Some {
        lemma_inserted(s1, nose->0);
    }
    if mouth is Some {
        lemma_inserted(s2, mouth->0);
    }
    if chin is Some {
        lemma_inserted(s3, chin->0);
    }
    lemma_levelled(s4, s4.len() as int);
    let axis = spec_yaw_visibility_axis(face);
    assert forall|p: Point| s4.contains(p) implies is_on_or_level(axis, p) by {
        let j = choose|j: int| 0 <= j < s4.len() && s4[j] == p;
        assert(s4[j] == p);
    }
    assert(eyes is Some ==> s1.contains(eyes->0));
    assert(eyes is Some ==> s2.contains(eyes->0));
    assert(eyes is Some ==> s3.contains(eyes->0));
    assert(eyes is Some ==> s4.contains(eyes->0));
    assert(nose is Some ==> s2.contains(nose->0));
    assert(nose is Some ==> s3.contains(nose->0));
    assert(nose is Some ==> s4.contains(nose->0));
    assert(mouth is Some ==> s3.contains(mouth->0));
    assert(mouth is Some ==> s4.contains(mouth->0));
    assert(chin is Some ==> s4.contains(chin->0));
    assert(s0.contains(top) && s1.contains(top) && s2.contains(top) && s3.contains(top)
        && s4.contains(top));
    assert forall|i: int| 0 <= i < axis.len() implies Some(#[trigger] axis[i]) == eyes || Some(
        axis[i],
    ) == nose || Some(axis[i]) == mouth || Some(axis[i]) == chin || axis[i] == top by {
        let p = axis[i];
        let j = choose|j: int| 0 <= j < s4.len() && #[trigger] s4[j] == axis[i];
        assert(s4.contains(p));
        assert(s3.contains(p) || Some(p) == chin);
        assert(s3.contains(p) ==> s2.contains(p) || Some(p) == mouth);
        assert(s2.contains(p) ==> s1.contains(p) || Some(p) == nose);
        assert(s1.contains(p) ==> s0.contains(p) || Some(p) == eyes);
    }
}

/// The chin is the lowest point of the contour.
pub proof fn law_chin_is_lowest(points: Seq<Point>, k: int, i: int)
    requires
        0 <= i < k <= points.len(),
    ensures
        lowest(points, k) matches Some(chin) && chin.y.rank() <= points[i].y.rank()
            && points.contains(chin),
    decreases k,
{
    if k > 1 {
        if i < k - 1 {
            law_chin_is_lowest(points, k - 1, i);
        } else {
            law_chin_is_lowest(points, k - 1, 0);
        }
        assert(points.contains(points[k - 1]));
    } else {
        assert(lowest(points, 0) is None);
        assert(points.contains(points[0]));
    }
}

/// The mesh of a turned face reaches from its axis as far as fifty-two hundredths of the width of
/// its box where it is not warped, sixteen where it is warped in full, and in between by the
/// strength of the warp, up to rounding.
pub proof fn law_margin_shrinks_with_the_turn(width: Double, strength: Double)
    requires
        is_within(width, 1574),
        strength.is_finite(),
        0 <= strength.value() <= pow2(1074),
    ensures
        ({
            let margin = warp_margin(width, strength);
            let exact = width.value() * (52 * pow2(1074) - 36 * strength.value());
            &&& margin.is_finite()
            &&& 0x100_0000_0000 * size(100 * (margin.value() * pow2(1074)) - exact)
                <= width.magnitude() * pow2(1074) + 0x100_0000_0000 * (100 * pow2(1074))
        }),
{
    let unit = pow2(1074) as int;
    vstd::arithmetic::power2::lemma_pow2_pos(1074);
    vstd::arithmetic::power2::lemma2_to64_rest();
    vstd::arithmetic::power2::lemma_pow2_strictly_increases(63, 1074);
    patterns::lemma_small_powers(52);
    vstd::arithmetic::power2::lemma_pow2_unfold(53);
    relief::lemma_ratio_error(52, 100);
    relief::lemma_ratio_error(16, 100);
    let (a, b) = (Double::ratio(52, 100), Double::ratio(16, 100));
    a.lemma_order(b);
    strength.lemma_order(a);
    assert(is_within(a, 1074) && is_within(b, 1074));
    bounds::lemma_sum_within(b, a, 1074);
    monotone::lemma_difference_error(b, a);
    let d = b - a;
    d.lemma_order(a);
    monotone::lemma_share_error(d, strength);
    let p = d * strength;
    p.lemma_order(d);
    bounds::lemma_within_wider(a, 1074, 1075);
    bounds::lemma_sum_within(a, p, 1075);
    bounds::lemma_sum_error(a, p);
    let share = a + p;
    share.lemma_order(a);
    let (x, y, s) = (a.value(), d.value(), strength.value());
    let (m, v) = (p.value(), share.value());
    lemma_inner_margin(unit, x, b.value(), y, s, m, v);
    monotone::lemma_share_error(width, share);
    let w = width.value();
    let r = (width * share).value();
    let e = 100 * v - (52 * unit - 36 * s);
    // what the product of the width and the share is off
    let g = r * unit - w * v;
    assert(100 * (r * unit) - w * (52 * unit - 36 * s) == 100 * g + w * e) by (nonlinear_arith)
        requires
            g == r * unit - w * v,
            e == 100 * v - (52 * unit - 36 * s),
    ;
    let z = width.magnitude();
    width.lemma_order(share);
    assert(size(w * e) == z * size(e)) by (nonlinear_arith)
        requires
            w == z || w == -z,
            z >= 0,
    ;
    assert(0x200_0000_0000 * (z * size(e)) <= z * unit) by (nonlinear_arith)
        requires
            0x200_0000_0000 * size(e) <= unit,
            z >= 0,
    ;
}

/// The share of the width, and its error.
proof fn lemma_inner_margin(u: int, x: int, b: int, y: int, s: int, m: int, v: int)
    requires
        u >= 0x10_0000_0000_0000,
        0 <= s <= u,
        0 <= x <= u,
        0 <= b <= u,
        0x8_0000_0000_0000 * size(100 * x - 52 * u) <= 52 * u,
        0x8_0000_0000_0000 * size(100 * b - 16 * u) <= 16 * u,
        0x20_0000_0000_0000 * size(y - (b - x)) <= u,
        0x20_0000_0000_0000 * size(m * u - y * s) <= size(y * s) + 0x10_0000_0000_0000 * u,
        size(y * s) <= size(y) * u,
        0x20_0000_0000_0000 * size(v - (x + m)) <= 2 * u,
    ensures
        0x200_0000_0000 * size(100 * v - (52 * u - 36 * s)) <= u,
        0 <= v <= u,
{
    let e1 = 100 * y + 36 * u;
    assert(-2 * u <= 0x1000_0000_0000 * e1 <= 2 * u);
    let g = m * u - y * s;
    let f = 100 * m + 36 * s;
    assert(f * u == 100 * g + e1 * s) by (nonlinear_arith)
        requires
            f == 100 * m + 36 * s,
            g == m * u - y * s,
            e1 == 100 * y + 36 * u,
    ;
    let uu = u * u;
    assert(size(y) <= u);
    assert(size(y) * u <= uu) by (nonlinear_arith)
        requires
            size(y) <= u,
            uu == u * u,
            u > 0,
    ;
    assert(0x10_0000_0000_0000 * u <= uu) by (nonlinear_arith)
        requires
            uu == u * u,
            u >= 0x10_0000_0000_0000,
    ;
    assert(-2 * uu <= 0x1000_0000_0000 * (e1 * s) <= 2 * uu) by (nonlinear_arith)
        requires
            -2 * u <= 0x1000_0000_0000 * e1 <= 2 * u,
            0 <= s <= u,
            uu == u * u,
    ;
    assert(-4 * uu <= 0x1000_0000_0000 * (f * u) <= 4 * uu);
    assert(-4 * u <= 0x1000_0000_0000 * f <= 4 * u) by (nonlinear_arith)
        requires
            -4 * (u * u) <= 0x1000_0000_0000 * (f * u) <= 4 * (u * u),
            u > 0,
    ;
    let h = v - (x + m);
    assert(100 * v - (52 * u - 36 * s) == (100 * x - 52 * u) + f + 100 * h);
}

/// How much the envelope of the eyes counts at a height lies between nothing and one, and is one
/// between its edges.
proof fn lemma_influence(space: EyeFeatureEnvelope, y: Double, height: Double)
    requires
        !space.vertical_influence(y, height).nan(),
    ensures
        space.vertical_influence(y, height).is_finite(),
        0 <= space.vertical_influence(y, height).value() <= pow2(1074),
{
    bounds::lemma_one();
    bounds::lemma_zero();
    vstd::arithmetic::power2::lemma_pow2_pos(1074);
    let zero = Double { bits: 0 };
    zero.lemma_order(zero);
    space.vertical_influence(y, height).lemma_order(Double::integer(1));
}

/// The limit of the hidden side is at the margin from the axis, to the right or to the left, where
/// no eyes and eyebrows are known; where they are, it is no nearer to the axis than that.
pub proof fn law_eyes_only_widen_the_limit(
    center: Double,
    margin: Double,
    space: EyeFeatureEnvelope,
    y: Double,
    width: Double,
    height: Double,
)
    requires
        is_within(center, 1400),
        is_within(margin, 1400),
        is_within(width, 1400),
        is_within(space.min_x, 1400),
        is_within(space.max_x, 1400),
        !space.vertical_influence(y, height).nan(),
    ensures
        spec_side_limit(center, margin, None, true, y, width, height) == center + margin,
        spec_side_limit(center, margin, None, false, y, width, height) == center - margin,
        (center + margin).at_most(
            spec_side_limit(center, margin, Some(space), true, y, width, height),
        ),
        spec_side_limit(center, margin, Some(space), false, y, width, height).at_most(
            center - margin,
        ),
{
    lemma_influence(space, y, height);
    let influence = space.vertical_influence(y, height);
    influence.lemma_order(influence);
    let gap = Double::ratio(18, 1000);
    relief::lemma_ratio_error(18, 1000);
    gap.lemma_order(width);
    monotone::lemma_share_error(width, gap);
    (width * gap).lemma_order(width);
    bounds::lemma_sum_within(center, margin, 1400);
    bounds::lemma_sum_within(space.max_x, width * gap, 1400);
    bounds::lemma_sum_within(space.min_x, width * gap, 1400);
    let (right, left) = (center + margin, center - margin);
    let outer = right.max(space.max_x + width * gap);
    let inner = left.min(space.min_x - width * gap);
    lemma_widened(right, outer, influence, true);
    lemma_widened(left, inner, influence, false);
}

/// A limit that is drawn towards one farther out.
proof fn lemma_widened(limit: Double, other: Double, share: Double, up: bool)
    requires
        is_within(limit, 1401),
        is_within(other, 1401),
        share.is_finite(),
        0 <= share.value() <= pow2(1074),
        if up {
            limit.value() <= other.value()
        } else {
            other.value() <= limit.value()
        },
    ensures
        ({
            let r = limit + (other - limit) * share;
            !r.nan() && if up {
                limit.value() <= r.value()
            } else {
                r.value() <= limit.value()
            }
        }),
{
    let zero = Double { bits: 0 };
    bounds::lemma_zero();
    zero.lemma_order(zero);
    share.lemma_order(share);
    bounds::lemma_sum_within(other, limit, 1401);
    lemma_nothing_left(limit);
    let way = other - limit;
    if up {
        monotone::lemma_difference_order(limit, limit, other, limit);
    } else {
        monotone::lemma_difference_order(other, limit, limit, limit);
    }
    monotone::lemma_share_error(way, share);
    let part = way * share;
    part.lemma_order(way);
    placing::lemma_factors_commute(way, share);
    if share.value() == 0 {
        bounds::lemma_zero_product(way, share);
    } else {
        if up {
            monotone::lemma_scaled_order(share, zero, way);
        } else {
            monotone::lemma_scaled_order(share, way, zero);
        }
        bounds::lemma_zero_product(share, zero);
        (share * zero).lemma_order(zero);
    }
    if up {
        monotone::lemma_sum_order(limit, zero, limit, part);
    } else {
        monotone::lemma_sum_order(limit, part, limit, zero);
    }
    bounds::lemma_plus_zero(limit, zero);
}

} // verus!
