//! Where the points of a face are, in the image and ahead of time.

use vstd::prelude::*;
use vstd::arithmetic::power2::pow2;
use crate::bounds;
use crate::bounds::is_within;
use crate::camera::frame::shown;
use crate::detector::{image_point, spec_extract_region, spec_face, ReportedFace, ReportedRegion};
use crate::double::Double;
use crate::model::{BoundingBox, FaceGeometry, Point};
use crate::monotone;
use crate::monotone::size;
use crate::patterns;
use crate::tracker::TrackedView;

verus! {

/// The order of factors does not matter.
pub proof fn lemma_factors_commute(a: Double, b: Double)
    ensures
        a * b == b * a,
{
    reveal(Double::spec_mul);
    assert(a.magnitude() * b.magnitude() == b.magnitude() * a.magnitude()) by (nonlinear_arith);
}

/// A value is that of a place with a share of a length added, up to rounding.
pub open spec fn is_along(r: Double, start: Double, length: Double, share: Double) -> bool {
    let exact = start.value() * pow2(1074) + length.value() * share.value();
    &&& r.is_finite()
    &&& 0x4_0000_0000_0000 * size(r.value() * pow2(1074) - exact) <= (start.magnitude()
        + length.magnitude()) * pow2(1074) + 0x4_0000_0000_0000 * pow2(1074)
}

proof fn lemma_along(start: Double, length: Double, share: Double)
    requires
        is_within(start, 1574),
        is_within(length, 1574),
        share.is_finite(),
        share.magnitude() <= pow2(1074),
    ensures
        is_along(start + share * length, start, length, share),
{
    let unit = pow2(1074) as int;
    vstd::arithmetic::power2::lemma_pow2_pos(1074);
    patterns::lemma_small_powers(52);
    vstd::arithmetic::power2::lemma_pow2_unfold(53);
    lemma_factors_commute(share, length);
    monotone::lemma_share_error(length, share);
    let part = length * share;
    part.lemma_order(length);
    start.lemma_order(part);
    bounds::lemma_sum_within(start, part, 1574);
    bounds::lemma_sum_error(start, part);
    let (p, m, r) = (start.value(), part.value(), (start + part).value());
    let exact = length.value() * share.value();
    let (e, g) = (r - (p + m), m * unit - exact);
    assert(r * unit == p * unit + m * unit + e * unit) by (nonlinear_arith)
        requires
            r == p + m + e,
    ;
    assert(size(e * unit) == size(e) * unit) by (nonlinear_arith)
        requires
            unit > 0,
    ;
    let s = start.magnitude() + length.magnitude();
    let big = 0x20_0000_0000_0000int;
    assert(big * size(e) <= s);
    bounds::lemma_product_order(big * size(e), s, unit);
    assert(big * size(e) * unit == big * (size(e) * unit)) by (nonlinear_arith);
    bounds::lemma_product_order(length.magnitude(), s, unit);
    assert(r * unit - (p * unit + exact) == e * unit + g);
}

/// A landmark that is reported by its place in the box of a face is at that place of the image: as
/// far from the corner of the box as it is in it, by its width and its height.
pub proof fn law_landmarks_are_placed_in_the_image(point: Point, bounds: BoundingBox)
    requires
        is_within(bounds.x, 1574),
        is_within(bounds.y, 1574),
        is_within(bounds.width, 1574),
        is_within(bounds.height, 1574),
        point.x.is_finite() && point.x.magnitude() <= pow2(1074),
        point.y.is_finite() && point.y.magnitude() <= pow2(1074),
    ensures
        is_along(image_point(point, bounds).x, bounds.x, bounds.width, point.x),
        is_along(image_point(point, bounds).y, bounds.y, bounds.height, point.y),
{
    lemma_along(bounds.x, bounds.width, point.x);
    lemma_along(bounds.y, bounds.height, point.y);
}

/// A reported region keeps its kind, and each of its points is placed in the image.
pub proof fn law_regions_are_placed_in_the_image(region: ReportedRegion, bounds: BoundingBox)
    ensures
        match region.points {
            Some(points) => spec_extract_region(region, bounds) matches Ok(found) && found.kind
                == region.kind && found.points.len() == points@.len() && forall|i: int|
                0 <= i < points@.len() ==> #[trigger] found.points[i] == image_point(
                    points@[i],
                    bounds,
                ),
            None => spec_extract_region(region, bounds) is Err,
        },
{
}

/// A reported face keeps its box, its angles and its confidences, and is measured by its box and
/// its landmarks in the image.
pub proof fn law_reported_face_is_kept(face: ReportedFace)
    requires
        spec_face(face) is Ok,
    ensures
        ({
            let found = spec_face(face)->Ok_0;
            &&& found.bounding_box == face.bounding_box
            &&& found.roll_radians == face.roll_radians
            &&& found.yaw_radians == face.yaw_radians
            &&& found.pitch_radians == face.pitch_radians
            &&& found.confidence == face.confidence
            &&& found.landmark_confidence == face.landmark_confidence
            &&& found.measurements == FaceGeometry::spec_measurements(
                found.bounding_box,
                found.landmarks,
            )
        }),
{
}

/// A face is shown where its motion takes it in the time of the inference, of a frame and of the
/// lag of smoothing, a quarter of a second at most: the box and every landmark are moved alike, and
/// nothing else of it changes.
pub proof fn law_shown_face_moves_as_one(face: TrackedView, inference_seconds: Double)
    ensures
        ({
            let time = ((inference_seconds + Double::ratio(1, 60)).max(Double::integer(0))
                + face.smoothing_lag_seconds).min(Double::ratio(1, 4));
            let (dx, dy) = (face.velocity_per_second.x * time, face.velocity_per_second.y * time);
            let (old, new) = (face.geometry, shown(face, inference_seconds).geometry);
            &&& shown(face, inference_seconds).track_id == face.track_id
            &&& shown(face, inference_seconds).velocity_per_second == face.velocity_per_second
            &&& new.bounding_box.x == old.bounding_box.x + dx
            &&& new.bounding_box.y == old.bounding_box.y + dy
            &&& new.bounding_box.width == old.bounding_box.width
            &&& new.bounding_box.height == old.bounding_box.height
            &&& new.landmarks.len() == old.landmarks.len()
            &&& forall|i: int|
                0 <= i < old.landmarks.len() ==> (#[trigger] new.landmarks[i]).kind
                    == old.landmarks[i].kind && new.landmarks[i].points.len()
                    == old.landmarks[i].points.len()
            &&& forall|i: int, k: int|
                0 <= i < old.landmarks.len() && 0 <= k < old.landmarks[i].points.len() ==> (
                #[trigger] new.landmarks[i].points[k]) == (Point {
                    x: old.landmarks[i].points[k].x + dx,
                    y: old.landmarks[i].points[k].y + dy,
                })
            &&& new.measurements == old.measurements
            &&& new.yaw_radians == old.yaw_radians
            &&& new.roll_radians == old.roll_radians
            &&& new.pitch_radians == old.pitch_radians
            &&& new.confidence == old.confidence
        }),
{
}

/// A face at rest is shown where it is, up to the sign of nothing.
pub proof fn law_face_at_rest_is_shown_where_it_is(face: TrackedView, inference_seconds: Double)
    requires
        face.velocity_per_second == Point::zero(),
        face.geometry.bounding_box.x.is_finite(),
        face.geometry.bounding_box.y.is_finite(),
        ((inference_seconds + Double::ratio(1, 60)).max(Double::integer(0))
            + face.smoothing_lag_seconds).min(Double::ratio(1, 4)).is_finite(),
    ensures
        ({
            let (old, new) = (
                face.geometry.bounding_box,
                shown(face, inference_seconds).geometry.bounding_box,
            );
            new.x.value() == old.x.value() && new.y.value() == old.y.value()
        }),
{
    let time = ((inference_seconds + Double::ratio(1, 60)).max(Double::integer(0))
        + face.smoothing_lag_seconds).min(Double::ratio(1, 4));
    let zero = Double { bits: 0 };
    bounds::lemma_zero();
    zero.lemma_order(zero);
    bounds::lemma_zero_product(zero, time);
    bounds::lemma_plus_zero(face.geometry.bounding_box.x, zero * time);
    bounds::lemma_plus_zero(face.geometry.bounding_box.y, zero * time);
}

/// An angle of no more than one radian, in degrees: 57.29577951 of them and a little more to the
/// radian, less than 57.29577952, up to rounding.
pub proof fn law_degrees_of_an_angle(x: Double)
    requires
        x.is_finite(),
        x.magnitude() <= pow2(1074),
    ensures
        ({
            let d = x.to_degrees();
            &&& d.is_finite()
            &&& d.negative() == x.negative()
            &&& 0x4_0000_0000_0000 * (5_729_577_951 * x.magnitude() - 100_000_000 * d.magnitude())
                <= 5_729_577_951 * x.magnitude() + 0x4_0000_0000_0000 * 100_000_000
            &&& 0x4_0000_0000_0000 * (100_000_000 * d.magnitude() - 5_729_577_952 * x.magnitude())
                <= 5_729_577_952 * x.magnitude() + 0x4_0000_0000_0000 * 100_000_000
        }),
{
    let c = Double { bits: 0x404C_A5DC_1A63_C1F8 };
    let unit = pow2(1074) as int;
    vstd::arithmetic::power2::lemma_pow2_pos(1074);
    vstd::arithmetic::power2::lemma_pow2_pos(1027);
    vstd::arithmetic::power2::lemma2_to64();
    vstd::arithmetic::power2::lemma2_to64_rest();
    vstd::arithmetic::power2::lemma_pow2_adds(47, 1027);
    patterns::lemma_small_powers(52);
    let g = pow2(1027) as int;
    assert(c.magnitude() == 0x1C_A5DC_1A63_C1F8 * g) by {
        reveal(Double::magnitude);
        crate::rounding::lemma_mag_of_split(
            0x404C_A5DC_1A63_C1F8,
            0x1C_A5DC_1A63_C1F8,
            1027,
            52,
        );
    }
    lemma_factors_commute(x, c);
    monotone::lemma_share_error(c, x);
    x.lemma_order(c);
    let r = x * c;
    assert(r.negative() == x.negative()) by {
        reveal(Double::spec_mul);
        bounds::lemma_nearest_signed(x.negative(), x.magnitude() * c.magnitude(), unit);
    }
    r.lemma_order(x);
    let (k, m, d) = (c.magnitude(), x.magnitude(), r.magnitude());
    let exact = k * m;
    assert(size(c.value() * x.value()) == exact) by (nonlinear_arith)
        requires
            exact == k * m,
            c.value() == k,
            x.value() == m || x.value() == -m,
            k >= 0,
            m >= 0,
    ;
    assert(size(r.value() * unit - c.value() * x.value()) == size(d * unit - exact))
        by (nonlinear_arith)
        requires
            exact == k * m,
            c.value() == k,
            x.value() == if x.negative() { -m } else { m },
            r.value() == if x.negative() { -d } else { d },
    ;
    let big = 0x20_0000_0000_0000int;
    assert(5_729_577_951 * unit <= 100_000_000 * k <= 5_729_577_952 * unit);
    assert(5_729_577_951 * (m * unit) <= 100_000_000 * exact <= 5_729_577_952 * (m * unit))
        by (nonlinear_arith)
        requires
            5_729_577_951 * unit <= 100_000_000 * k <= 5_729_577_952 * unit,
            exact == k * m,
            m >= 0,
    ;
    let low = 5_729_577_951 * m - 100_000_000 * d;
    let high = 100_000_000 * d - 5_729_577_952 * m;
    let mu = m * unit;
    assert(low * unit == 5_729_577_951 * mu - 100_000_000 * (d * unit) && high * unit == 100_000_000
        * (d * unit) - 5_729_577_952 * mu) by (nonlinear_arith)
        requires
            low == 5_729_577_951 * m - 100_000_000 * d,
            high == 100_000_000 * d - 5_729_577_952 * m,
            mu == m * unit,
    ;
    let four = 0x4_0000_0000_0000int;
    assert(mu >= 0) by (nonlinear_arith)
        requires
            mu == m * unit,
            m >= 0,
            unit > 0,
    ;
    assert(four * (low * unit) <= 5_729_577_951 * mu + four * 100_000_000 * unit);
    assert(four * (high * unit) <= 5_729_577_952 * mu + four * 100_000_000 * unit);
    assert(four * low <= 5_729_577_951 * m + four * 100_000_000) by (nonlinear_arith)
        requires
            four * (low * unit) <= 5_729_577_951 * (m * unit) + four * 100_000_000 * unit,
            unit > 0,
    ;
    assert(four * high <= 5_729_577_952 * m + four * 100_000_000) by (nonlinear_arith)
        requires
            four * (high * unit) <= 5_729_577_952 * (m * unit) + four * 100_000_000 * unit,
            unit > 0,
    ;
}

} // verus!
