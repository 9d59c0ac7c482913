//! What smoothing makes of values, points and faces.

use vstd::prelude::*;
use vstd::arithmetic::power2::pow2;
use crate::bounds;
use crate::bounds::is_within;
use crate::double::Double;
use crate::model;
use crate::lengths;
use crate::model::{epsilon, BoundingBox, FaceGeometry, FaceView, Point};
use crate::monotone;
use crate::monotone::size;
use crate::motion::{
    center, lerp, normalized_point, root_of_two, seconds_between, shape_sum,
    spec_landmark_shape_distance, spec_smooth_geometry, spec_smooth_region,
};
use crate::patterns;
use crate::prediction;
use crate::tracker::{smoothing_lag_seconds, TrackView, Update};

verus! {

/// A share between zero and one.
pub open spec fn is_share(alpha: Double) -> bool {
    alpha.is_finite() && 0 <= alpha.value() <= pow2(1074)
}

/// A value is the mean of an old and a new one, the new one counting `alpha`, up to rounding.
pub open spec fn is_mean(r: Double, old: Double, new: Double, alpha: Double) -> bool {
    let exact = old.value() * (pow2(1074) - alpha.value()) + new.value() * alpha.value();
    &&& r.is_finite()
    &&& 0x2_0000_0000_0000 * size(r.value() * pow2(1074) - exact) <= (old.magnitude()
        + new.magnitude()) * pow2(1074) + 0x2_0000_0000_0000 * pow2(1074)
}

/// A point is the mean of an old and a new one.
pub open spec fn is_mean_point(r: Point, old: Point, new: Point, alpha: Double) -> bool {
    is_mean(r.x, old.x, new.x, alpha) && is_mean(r.y, old.y, new.y, alpha)
}

/// Smoothing takes the mean of an old and a new value, the new one counting the smoothing factor.
pub proof fn law_smoothed_is_mean(old: Double, new: Double, alpha: Double)
    requires
        is_within(old, 1574),
        is_within(new, 1574),
        is_share(alpha),
    ensures
        is_mean(lerp(old, new, alpha), old, new, alpha),
{
    let unit = pow2(1074) as int;
    vstd::arithmetic::power2::lemma_pow2_pos(1074);
    old.lemma_order(new);
    alpha.lemma_order(alpha);
    bounds::lemma_sum_within(new, old, 1574);
    monotone::lemma_difference_error(new, old);
    let way = new - old;
    way.lemma_order(old);
    assert(alpha.magnitude() == alpha.value() || alpha.value() == 0);
    monotone::lemma_share_error(way, alpha);
    let part = way * alpha;
    part.lemma_order(way);
    bounds::lemma_within_wider(old, 1574, 1575);
    bounds::lemma_sum_within(old, part, 1575);
    bounds::lemma_sum_error(old, part);
    patterns::lemma_small_powers(52);
    vstd::arithmetic::power2::lemma_pow2_unfold(53);
    let (p, c, a) = (old.value(), new.value(), alpha.value());
    let (d, m, r) = (way.value(), part.value(), lerp(old, new, alpha).value());
    lemma_mean(unit, p, c, a, d, m, r);
}

/// The errors of a mean.
proof fn lemma_mean(u: int, p: int, c: int, a: int, d: int, m: int, r: int)
    requires
        u > 0,
        0 <= a <= u,
        0x20_0000_0000_0000 * size(d - (c - p)) <= size(c - p),
        0x20_0000_0000_0000 * size(m * u - d * a) <= size(d * a) + 0x10_0000_0000_0000 * u,
        size(d * a) <= size(d) * u,
        size(m) <= size(d),
        0x20_0000_0000_0000 * size(r - (p + m)) <= size(p + m),
    ensures
        0x2_0000_0000_0000 * size(r * u - (p * (u - a) + c * a)) <= (size(p) + size(c)) * u
            + 0x2_0000_0000_0000 * u,
{
    let s = size(p) + size(c);
    let e1 = d - (c - p);
    let e3 = r - (p + m);
    let e2 = m * u - d * a;
    assert(p * (u - a) + c * a == p * u + (c - p) * a) by (nonlinear_arith);
    assert(r * u == p * u + m * u + e3 * u) by (nonlinear_arith)
        requires
            r == p + m + e3,
    ;
    assert(d * a == (c - p) * a + e1 * a) by (nonlinear_arith)
        requires
            d == c - p + e1,
    ;
    let error = r * u - (p * (u - a) + c * a);
    assert(error == e1 * a + e2 + e3 * u);
    assert(size(e1 * a) <= size(e1) * u) by (nonlinear_arith)
        requires
            0 <= a <= u,
    ;
    assert(size(e3 * u) == size(e3) * u) by (nonlinear_arith)
        requires
            u > 0,
    ;
    let big = 0x20_0000_0000_0000int;
    assert(size(d) <= 2 * s);
    assert(big * size(e1) <= s);
    assert(big * size(e3) <= 3 * s);
    bounds::lemma_product_order(big * size(e1), s, u);
    bounds::lemma_product_order(big * size(e3), 3 * s, u);
    bounds::lemma_product_order(size(d), 2 * s, u);
    assert(big * size(e1) * u == big * (size(e1) * u)) by (nonlinear_arith);
    assert(big * size(e3) * u == big * (size(e3) * u)) by (nonlinear_arith);
    assert(3 * s * u == 3 * (s * u)) by (nonlinear_arith);
    assert(2 * s * u == 2 * (s * u)) by (nonlinear_arith);
    assert(s * u >= 0) by (nonlinear_arith)
        requires
            s >= 0,
            u > 0,
    ;
    assert(size(error) <= size(e1 * a) + size(e2) + size(e3 * u));
}

/// A value that did not change is smoothed to itself.
pub proof fn law_still_value_stays(x: Double, alpha: Double)
    requires
        x.is_finite(),
        alpha.is_finite(),
    ensures
        lerp(x, x, alpha).is_finite(),
        lerp(x, x, alpha).value() == x.value(),
{
    x.lemma_order(x.negated());
    let nothing = x - x;
    assert(nothing.pattern() == 0) by {
        reveal(Double::spec_add);
        bounds::lemma_signed(x.negative() && x.negated().negative(), 0);
    }
    bounds::lemma_zero_product(nothing, alpha);
    bounds::lemma_plus_zero(x, nothing * alpha);
}

/// Values that are not huge.
pub open spec fn is_moderate_box(b: BoundingBox) -> bool {
    is_within(b.x, 1574) && is_within(b.y, 1574) && is_within(b.width, 1574) && is_within(
        b.height,
        1574,
    )
}

pub open spec fn are_moderate(points: Seq<Point>) -> bool {
    forall|i: int|
        0 <= i < points.len() ==> is_within((#[trigger] points[i]).x, 1574) && is_within(
            points[i].y,
            1574,
        )
}

pub open spec fn is_moderate_angle(angle: Option<Double>) -> bool {
    angle matches Some(angle) ==> is_within(angle, 1574)
}

/// An angle is smoothed where both faces have it, and kept where one has.
pub open spec fn is_mean_angle(
    r: Option<Double>,
    old: Option<Double>,
    new: Option<Double>,
    alpha: Double,
) -> bool {
    match (old, new) {
        (Some(old), Some(new)) => r is Some && is_mean(r->0, old, new, alpha),
        (Some(old), None) => r == Some(old),
        (None, Some(new)) => r == Some(new),
        (None, None) => r is None,
    }
}

/// A smoothed face lies between the old and the new one: its box, its angles and its landmarks do,
/// where the old face has as many of a kind, and are the new ones where it has not. Its confidence
/// is the new one, and its measurements are those of the smoothed landmarks.
pub proof fn law_smoothed_face(old: FaceView, new: FaceView, alpha: Double, i: int)
    requires
        is_share(alpha),
        is_moderate_box(old.bounding_box),
        is_moderate_box(new.bounding_box),
        is_moderate_angle(old.roll_radians) && is_moderate_angle(new.roll_radians),
        is_moderate_angle(old.yaw_radians) && is_moderate_angle(new.yaw_radians),
        is_moderate_angle(old.pitch_radians) && is_moderate_angle(new.pitch_radians),
        forall|j: int| 0 <= j < old.landmarks.len() ==> are_moderate((#[trigger] old.landmarks[j]).points),
        0 <= i < new.landmarks.len(),
        are_moderate(new.landmarks[i].points),
    ensures
        ({
            let r = spec_smooth_geometry(old, new, alpha);
            &&& is_mean(r.bounding_box.x, old.bounding_box.x, new.bounding_box.x, alpha)
            &&& is_mean(r.bounding_box.y, old.bounding_box.y, new.bounding_box.y, alpha)
            &&& is_mean(r.bounding_box.width, old.bounding_box.width, new.bounding_box.width, alpha)
            &&& is_mean(
                r.bounding_box.height,
                old.bounding_box.height,
                new.bounding_box.height,
                alpha,
            )
            &&& is_mean_angle(r.roll_radians, old.roll_radians, new.roll_radians, alpha)
            &&& is_mean_angle(r.yaw_radians, old.yaw_radians, new.yaw_radians, alpha)
            &&& is_mean_angle(r.pitch_radians, old.pitch_radians, new.pitch_radians, alpha)
            &&& r.confidence == new.confidence
            &&& r.landmark_confidence == new.landmark_confidence
            &&& r.measurements == FaceGeometry::spec_measurements(r.bounding_box, r.landmarks)
            &&& r.landmarks.len() == new.landmarks.len()
            &&& r.landmarks[i].kind == new.landmarks[i].kind
            &&& r.landmarks[i].points.len() == new.landmarks[i].points.len()
            &&& match model::spec_region(old.landmarks, new.landmarks[i].kind) {
                Some(before) if before.len() == new.landmarks[i].points.len() => forall|k: int|
                    0 <= k < before.len() ==> is_mean_point(
                        #[trigger] r.landmarks[i].points[k],
                        before[k],
                        new.landmarks[i].points[k],
                        alpha,
                    ),
                _ => r.landmarks[i].points == new.landmarks[i].points,
            }
        }),
{
    let (a, b) = (old.bounding_box, new.bounding_box);
    law_smoothed_is_mean(a.x, b.x, alpha);
    law_smoothed_is_mean(a.y, b.y, alpha);
    law_smoothed_is_mean(a.width, b.width, alpha);
    law_smoothed_is_mean(a.height, b.height, alpha);
    lemma_angle(old.roll_radians, new.roll_radians, alpha);
    lemma_angle(old.yaw_radians, new.yaw_radians, alpha);
    lemma_angle(old.pitch_radians, new.pitch_radians, alpha);
    let r = spec_smooth_geometry(old, new, alpha);
    let kind = new.landmarks[i].kind;
    model::law_first_region_counts(old.landmarks, kind);
    assert(r.landmarks[i] == spec_smooth_region(old.landmarks, new.landmarks[i], alpha));
    if let Some(before) = model::spec_region(old.landmarks, kind) {
        if before.len() == new.landmarks[i].points.len() {
            assert forall|k: int| 0 <= k < before.len() implies is_mean_point(
                #[trigger] r.landmarks[i].points[k],
                before[k],
                new.landmarks[i].points[k],
                alpha,
            ) by {
                let j = choose|j: int|
                    0 <= j < old.landmarks.len() && (#[trigger] old.landmarks[j]).kind == kind
                        && old.landmarks[j].points == before && forall|l: int|
                        0 <= l < j ==> (#[trigger] old.landmarks[l]).kind != kind;
                assert(are_moderate(old.landmarks[j].points));
                let (p, q) = (before[k], new.landmarks[i].points[k]);
                assert(is_within(p.x, 1574) && is_within(q.x, 1574));
                law_smoothed_is_mean(p.x, q.x, alpha);
                law_smoothed_is_mean(p.y, q.y, alpha);
            }
        }
    }
}

proof fn lemma_angle(old: Option<Double>, new: Option<Double>, alpha: Double)
    requires
        is_share(alpha),
        is_moderate_angle(old),
        is_moderate_angle(new),
    ensures
        is_mean_angle(crate::motion::smooth_optional(old, new, alpha), old, new, alpha),
{
    if let (Some(p), Some(q)) = (old, new) {
        law_smoothed_is_mean(p, q, alpha);
    }
}

/// A detection that is taken for a face that is followed is returned smoothed: its box lies
/// between that of the face so far and its own, by the smoothing factor.
pub proof fn law_returned_face_is_smoothed(update: Update, i: int, d: int)
    requires
        update.is_optimal(),
        update.paired(i, d),
        is_share(update.tracker.config.smoothing_factor),
        is_moderate_box(update.tracker.tracks[i].geometry.bounding_box),
        is_moderate_box(update.detections[d].bounding_box),
    ensures
        ({
            let alpha = update.tracker.config.smoothing_factor;
            let r = update.faces()[d].geometry.bounding_box;
            let old = update.tracker.tracks[i].geometry.bounding_box;
            let new = update.detections[d].bounding_box;
            &&& is_mean(r.x, old.x, new.x, alpha)
            &&& is_mean(r.y, old.y, new.y, alpha)
            &&& is_mean(r.width, old.width, new.width, alpha)
            &&& is_mean(r.height, old.height, new.height, alpha)
        }),
{
    let alpha = update.tracker.config.smoothing_factor;
    let old = update.tracker.tracks[i].geometry.bounding_box;
    let new = update.detections[d].bounding_box;
    law_smoothed_is_mean(old.x, new.x, alpha);
    law_smoothed_is_mean(old.y, new.y, alpha);
    law_smoothed_is_mean(old.width, new.width, alpha);
    law_smoothed_is_mean(old.height, new.height, alpha);
    update.lemma_one_owner(i, d);
    assert(update.owner(d) == i);
}

/// A velocity covers a way in a time, up to rounding.
pub open spec fn is_speed(speed: Double, from: Double, to: Double, time: Double) -> bool {
    let way = to.value() - from.value();
    &&& is_within(speed, 1590)
    &&& 0x8_0000_0000_0000 * size(speed.value() * time.value() - way * pow2(1074)) <= size(way)
        * pow2(1074) + 0x8_0000_0000_0000 * time.value()
}

proof fn lemma_speed(from: Double, to: Double, time: Double)
    requires
        is_within(from, 1500),
        is_within(to, 1500),
        time.is_finite(),
        pow2(1064) <= time.value(),
    ensures
        is_speed((to - from) / time, from, to, time),
{
    let unit = pow2(1074) as int;
    vstd::arithmetic::power2::lemma_pow2_pos(1074);
    vstd::arithmetic::power2::lemma_pow2_pos(1064);
    bounds::lemma_sum_within(to, from, 1500);
    monotone::lemma_difference_error(to, from);
    let a = to - from;
    a.lemma_order(time);
    vstd::arithmetic::power2::lemma_pow2_adds(1501, 1074);
    vstd::arithmetic::power2::lemma_pow2_adds(1590, 1064);
    vstd::arithmetic::power2::lemma_pow2_strictly_increases(2575, 2654);
    let (m, t) = (a.magnitude(), time.value());
    assert(m * unit <= pow2(1590) * t) by (nonlinear_arith)
        requires
            0 <= m <= pow2(1501),
            unit > 0,
            pow2(1501) * unit <= pow2(1590) * pow2(1064),
            pow2(1064) <= t,
            pow2(1590) >= 0,
    ;
    monotone::lemma_quotient_error(a, time, 1590);
    let way = to.value() - from.value();
    let (d, q) = (a.value(), (a / time).value());
    let e = d - way;
    assert(d * unit == way * unit + e * unit) by (nonlinear_arith)
        requires
            d == way + e,
    ;
    assert(size(e * unit) == size(e) * unit && size(d) * unit == m * unit && size(way) * unit >= 0)
        by (nonlinear_arith)
        requires
            unit > 0,
            m == size(d),
    ;
    let big = 0x20_0000_0000_0000int;
    bounds::lemma_product_order(big * size(e), size(way), unit);
    assert(big * size(e) * unit == big * (size(e) * unit)) by (nonlinear_arith);
    bounds::lemma_product_order(m, 2 * size(way), unit);
    assert(2 * size(way) * unit == 2 * (size(way) * unit)) by (nonlinear_arith);
    let r = q * t - d * unit;
    assert(size(q * t - way * unit) <= size(r) + size(e * unit));
}

/// The velocity of a face that is seen again: the mean of the one so far and of the way from where
/// it was to where it is over the time between, which counts as a hundred and twentieth of a second
/// at least; the new one counts sixty-five hundredths.
pub proof fn law_velocity_follows_motion(
    track: TrackView,
    detection: FaceView,
    now: u64,
    alpha: Double,
)
    requires
        is_within(track.velocity.x, 1574),
        is_within(track.velocity.y, 1574),
        is_within(center(track.last_observed_bounds).x, 1400),
        is_within(center(track.last_observed_bounds).y, 1400),
        is_within(center(detection.bounding_box).x, 1400),
        is_within(center(detection.bounding_box).y, 1400),
    ensures
        ({
            let time = seconds_between(track.last_observed_at, now).max(Double::ratio(1, 120));
            let after = track.observed(detection, now, alpha);
            let from = center(track.last_observed_bounds);
            let to = center(detection.bounding_box);
            &&& after.last_observed_bounds == detection.bounding_box
            &&& after.last_observed_at == now
            &&& exists|speed: Point| #[trigger]
                is_mean_point(after.velocity, track.velocity, speed, Double::ratio(65, 100))
                    && is_speed(speed.x, from.x, to.x, time) && is_speed(speed.y, from.y, to.y, time)
        }),
{
    let least = Double::ratio(1, 120);
    let time = seconds_between(track.last_observed_at, now).max(least);
    let from = center(track.last_observed_bounds);
    let to = center(detection.bounding_box);
    prediction::law_seconds_between(track.last_observed_at, now);
    bounds::lemma_ratio_below(1, 120, 1);
    vstd::arithmetic::power2::lemma_pow2_pos(1064);
    vstd::arithmetic::power2::lemma_pow2_adds(10, 1064);
    vstd::arithmetic::power2::lemma2_to64();
    bounds::lemma_share_above(1, 120, 1064);
    bounds::lemma_ratio_positive(1, 120);
    least.lemma_order(time);
    bounds::lemma_within_wider(from.x, 1400, 1500);
    bounds::lemma_within_wider(from.y, 1400, 1500);
    bounds::lemma_within_wider(to.x, 1400, 1500);
    bounds::lemma_within_wider(to.y, 1400, 1500);
    lemma_speed_fits(from.x, to.x, time);
    lemma_speed_fits(from.y, to.y, time);
    lemma_speed(from.x, to.x, time);
    lemma_speed(from.y, to.y, time);
    let speed = Point { x: (to.x - from.x) / time, y: (to.y - from.y) / time };
    let share = Double::ratio(65, 100);
    bounds::lemma_ratio_below(65, 100, 8);
    bounds::lemma_ratio_positive(65, 100);
    vstd::arithmetic::power2::lemma_pow2_adds(3, 1071);
    law_smoothed_is_mean(track.velocity.x, speed.x, share);
    law_smoothed_is_mean(track.velocity.y, speed.y, share);
    assert(is_mean_point(
        track.observed(detection, now, alpha).velocity,
        track.velocity,
        speed,
        share,
    ));
}

/// A way of no great length over a time that is not short.
proof fn lemma_speed_fits(from: Double, to: Double, time: Double)
    requires
        is_within(from, 1400),
        is_within(to, 1400),
        time.is_finite(),
        pow2(1064) <= time.value(),
    ensures
        is_within((to - from) / time, 1574),
{
    let unit = pow2(1074) as int;
    vstd::arithmetic::power2::lemma_pow2_pos(1074);
    vstd::arithmetic::power2::lemma_pow2_pos(1064);
    bounds::lemma_sum_within(to, from, 1400);
    let a = to - from;
    a.lemma_order(time);
    vstd::arithmetic::power2::lemma_pow2_adds(1401, 1074);
    vstd::arithmetic::power2::lemma_pow2_adds(1574, 1064);
    vstd::arithmetic::power2::lemma_pow2_strictly_increases(2475, 2638);
    let (m, t) = (a.magnitude(), time.value());
    assert(m * unit <= pow2(1574) * t) by (nonlinear_arith)
        requires
            0 <= m <= pow2(1401),
            unit > 0,
            pow2(1401) * unit <= pow2(1574) * pow2(1064),
            pow2(1064) <= t,
            pow2(1574) >= 0,
    ;
    monotone::lemma_quotient_error(a, time, 1574);
}

/// A face differs from itself in shape by nothing, wherever it is: what it has of points goes by
/// their places in its box.
pub proof fn law_same_shape_differs_by_nothing(face: FaceView)
    requires
        is_moderate_box(face.bounding_box),
        forall|j: int|
            0 <= j < face.landmarks.len() ==> are_moderate((#[trigger] face.landmarks[j]).points),
        forall|j: int|
            0 <= j < face.landmarks.len() ==> (#[trigger] face.landmarks[j]).points.len()
                <= u64::MAX,
    ensures
        spec_landmark_shape_distance(face, face) matches Some(distance) ==> distance.is_finite()
            && distance.value() == 0,
{
    if spec_landmark_shape_distance(face, face) is Some {
        let kind = model::LandmarkKind::AllPoints;
        let points = model::spec_region(face.landmarks, kind)->0;
        model::law_first_region_counts(face.landmarks, kind);
        let j = choose|j: int|
            0 <= j < face.landmarks.len() && (#[trigger] face.landmarks[j]).kind == kind
                && face.landmarks[j].points == points && forall|l: int|
                0 <= l < j ==> (#[trigger] face.landmarks[l]).kind != kind;
        assert(are_moderate(face.landmarks[j].points));
        let n = points.len() as int;
        lemma_no_shape_sum(points, face.bounding_box, n);
        let count = Double::integer(points.len() as u64);
        bounds::lemma_ratio_positive(points.len() as u64, 1);
        let sum = shape_sum(points, face.bounding_box, points, face.bounding_box, n);
        monotone::lemma_zero_over(sum, count);
        let two = root_of_two();
        two.lemma_order(sum / count);
        monotone::lemma_zero_over(sum / count, two);
    }
}

proof fn lemma_no_shape_sum(points: Seq<Point>, b: BoundingBox, k: int)
    requires
        is_moderate_box(b),
        are_moderate(points),
        0 <= k <= points.len(),
    ensures
        shape_sum(points, b, points, b, k).pattern() == 0,
    decreases k,
{
    bounds::lemma_zero();
    if k > 0 {
        lemma_no_shape_sum(points, b, k - 1);
        let before = shape_sum(points, b, points, b, k - 1);
        let p = points[k - 1];
        assert(is_within(p.x, 1574));
        lemma_normal(p.x, b.x, b.width);
        lemma_normal(p.y, b.y, b.height);
        let q = normalized_point(p, b);
        lemma_nothing_between(q.x);
        lemma_nothing_between(q.y);
        bounds::lemma_hypot_of_nothing(q.x - q.x, q.y - q.y);
        let (x, y) = (q.x - q.x, q.y - q.y);
        x.lemma_order(y);
        vstd::arithmetic::power2::lemma_pow2_pos(1500);
        lengths::lemma_hypot_error(x, y);
        let way = q.distance(q);
        bounds::lemma_plus_zero(before, way);
        before.lemma_order(before + way);
    }
}

/// A value taken from itself leaves nothing.
proof fn lemma_nothing_between(x: Double)
    requires
        x.is_finite(),
    ensures
        (x - x).pattern() == 0,
{
    reveal(Double::spec_add);
    x.lemma_order(x.negated());
    bounds::lemma_signed(x.negative() && x.negated().negative(), 0);
}

/// A place in a box is finite.
proof fn lemma_normal(p: Double, x: Double, w: Double)
    requires
        is_within(p, 1574),
        is_within(x, 1574),
        is_within(w, 1574),
    ensures
        ((p - x) / w.max(epsilon())).is_finite(),
{
    let unit = pow2(1074) as int;
    vstd::arithmetic::power2::lemma_pow2_pos(1074);
    bounds::lemma_sum_within(p, x, 1574);
    let a = p - x;
    let d = w.max(epsilon());
    bounds::lemma_power_ratio();
    bounds::lemma_ratio_below(1, 4503599627370496, 1);
    w.lemma_order(epsilon());
    a.lemma_order(d);
    vstd::arithmetic::power2::lemma_pow2_adds(1575, 1074);
    vstd::arithmetic::power2::lemma_pow2_adds(1700, 1022);
    vstd::arithmetic::power2::lemma_pow2_strictly_increases(2649, 2722);
    vstd::arithmetic::power2::lemma_pow2_pos(1022);
    let (m, t) = (a.magnitude(), d.value());
    assert(m * unit <= pow2(1700) * t) by (nonlinear_arith)
        requires
            0 <= m <= pow2(1575),
            unit > 0,
            pow2(1575) * unit <= pow2(1700) * pow2(1022),
            pow2(1022) <= t,
            pow2(1700) >= 0,
    ;
    monotone::lemma_quotient_error(a, d, 1700);
}

/// What is returned for a detection that is taken for a face that is followed: its number, its
/// geometry smoothed, its velocity, and the lag of the smoothing. A new face is returned as it was
/// detected, at rest.
pub proof fn law_what_is_returned(update: Update, i: int, d: int)
    requires
        update.is_optimal(),
        0 <= d < update.detections.len(),
    ensures
        update.paired(i, d) ==> ({
            let alpha = update.tracker.config.smoothing_factor;
            let track = update.tracker.tracks[i];
            let after = track.observed(update.detections[d], update.now, alpha);
            let r = update.faces()[d];
            &&& r.track_id == track.id
            &&& r.geometry == spec_smooth_geometry(track.geometry, update.detections[d], alpha)
            &&& r.velocity_per_second == after.velocity
            &&& r.smoothing_lag_seconds == smoothing_lag_seconds(
                alpha,
                seconds_between(track.last_observed_at, update.now).max(Double::ratio(1, 120)),
            )
        }),
        !update.is_claimed(d) ==> ({
            let r = update.faces()[d];
            &&& r.geometry == update.detections[d]
            &&& r.velocity_per_second == Point::zero()
            &&& r.smoothing_lag_seconds == Double::integer(0)
        }),
{
    if update.paired(i, d) {
        update.lemma_one_owner(i, d);
    }
}

/// Smoothing lags behind by the time between two observations, as often as the old value counts
/// against the new one, up to rounding.
pub proof fn law_lag_of_smoothing(alpha: Double, interval: Double)
    requires
        alpha.is_finite(),
        pow2(1064) <= alpha.value() <= pow2(1074),
        interval.is_finite(),
        0 <= interval.value() <= pow2(1074),
    ensures
        ({
            let lag = smoothing_lag_seconds(alpha, interval);
            let exact = (pow2(1074) - alpha.value()) * interval.value();
            &&& lag.is_finite()
            &&& 0x100_0000_0000 * size(lag.value() * alpha.value() - exact) <= pow2(1074) * pow2(
                1074,
            )
        }),
{
    let unit = pow2(1074) as int;
    vstd::arithmetic::power2::lemma_pow2_pos(1074);
    vstd::arithmetic::power2::lemma_pow2_pos(1064);
    vstd::arithmetic::power2::lemma2_to64();
    vstd::arithmetic::power2::lemma2_to64_rest();
    vstd::arithmetic::power2::lemma_pow2_adds(10, 1064);
    vstd::arithmetic::power2::lemma_pow2_adds(11, 1074);
    vstd::arithmetic::power2::lemma_pow2_strictly_increases(63, 1074);
    bounds::lemma_one();
    let one = Double::integer(1);
    alpha.lemma_order(one);
    interval.lemma_order(one);
    assert(is_within(one, 1074) && is_within(alpha, 1074));
    bounds::lemma_sum_within(one, alpha, 1074);
    monotone::lemma_difference_error(one, alpha);
    let rest = one - alpha;
    rest.lemma_order(alpha);
    let (p, t) = (rest.magnitude(), alpha.value());
    assert(p <= unit + unit);
    assert(p * unit <= pow2(1085) * t) by (nonlinear_arith)
        requires
            0 <= p <= 2 * unit,
            unit == 1024 * pow2(1064),
            pow2(1085) == 2048 * unit,
            pow2(1064) <= t,
            unit > 0,
    ;
    monotone::lemma_quotient_error(rest, alpha, 1085);
    let q = rest / alpha;
    q.lemma_order(interval);
    monotone::lemma_share_error(q, interval);
    let lag = smoothing_lag_seconds(alpha, interval);
    lemma_lag(
        unit,
        t,
        interval.value(),
        rest.value(),
        q.value(),
        lag.value(),
    );
}

/// A difference times a number.
proof fn lemma_times_difference(a: int, b: int, c: int)
    ensures
        (a - b) * c == a * c - b * c,
{
    assert((a - b) * c == a * c - b * c) by (nonlinear_arith);
}

/// Factors in another order.
proof fn lemma_reordered(a: int, b: int, c: int)
    ensures
        (a * b) * c == (a * c) * b,
{
    assert((a * b) * c == (a * c) * b) by (nonlinear_arith);
}

/// The errors of a lag.
proof fn lemma_lag(u: int, t: int, i: int, c: int, q: int, l: int)
    requires
        u >= 0x10_0000_0000_0000,
        0 < t <= u,
        0 <= i <= u,
        0x20_0000_0000_0000 * size(c - (u - t)) <= u,
        0x20_0000_0000_0000 * size(q * t - c * u) <= size(c) * u + 0x10_0000_0000_0000 * t,
        0x20_0000_0000_0000 * size(l * u - q * i) <= size(q * i) + 0x10_0000_0000_0000 * u,
    ensures
        0x100_0000_0000 * size(l * t - (u - t) * i) <= u * u,
{
    let big = 0x20_0000_0000_0000int;
    let (e, f, g) = (c - (u - t), q * t - c * u, l * u - q * i);
    let uu = u * u;
    let far = l * t - (u - t) * i;
    // times the unit
    let rest = u - t;
    lemma_times_difference(l * u, q * i, t);
    lemma_times_difference(q * t, c * u, i);
    lemma_times_difference(c, rest, u);
    lemma_times_difference(c * u, rest * u, i);
    lemma_times_difference(l * t, rest * i, u);
    lemma_reordered(l, u, t);
    lemma_reordered(q, i, t);
    lemma_reordered(rest, u, i);
    assert(far * u == g * t + f * i + (e * u) * i);
    assert(size(c) <= 2 * u);
    assert(size(c) * u <= 2 * uu && 0x10_0000_0000_0000 * u <= uu) by (nonlinear_arith)
        requires
            size(c) <= 2 * u,
            uu == u * u,
            u >= 0x10_0000_0000_0000,
    ;
    assert(big * size(f) <= 3 * uu);
    // the quotient times the divisor
    assert(size(q * t) <= 3 * uu) by {
        assert(size(c * u) == size(c) * u) by (nonlinear_arith)
            requires
                u > 0,
        ;
    }
    assert(size(q * i) * t <= 3 * uu * u) by (nonlinear_arith)
        requires
            size(q * t) <= 3 * uu,
            0 <= i <= u,
            0 < t,
    ;
    let uuu = uu * u;
    assert(3 * uu * u == 3 * uuu) by (nonlinear_arith)
        requires
            uuu == uu * u,
    ;
    assert(big * (size(g) * t) <= 4 * uuu) by (nonlinear_arith)
        requires
            big * size(g) <= size(q * i) + 0x10_0000_0000_0000 * u,
            size(q * i) * t <= 3 * uuu,
            0x10_0000_0000_0000 * u <= uu,
            0 < t <= u,
            uuu == uu * u,
            uu >= 0,
    ;
    assert(size(g * t) == size(g) * t) by (nonlinear_arith)
        requires
            t > 0,
    ;
    assert(big * size(f * i) <= 3 * uuu) by (nonlinear_arith)
        requires
            big * size(f) <= 3 * uu,
            0 <= i <= u,
            uuu == uu * u,
            uu >= 0,
    ;
    assert(big * size((e * u) * i) <= uuu) by (nonlinear_arith)
        requires
            big * size(e) <= u,
            0 <= i <= u,
            uuu == u * u * u,
            u > 0,
    ;
    assert(big * size(far * u) <= 8 * uuu);
    assert(size(far * u) == size(far) * u) by (nonlinear_arith)
        requires
            u > 0,
    ;
    assert(big * size(far) <= 8 * uu) by (nonlinear_arith)
        requires
            big * (size(far) * u) <= 8 * uuu,
            uuu == uu * u,
            u > 0,
    ;
}

} // verus!
