//! Smoothing, prediction and comparison of face geometry.

use vstd::prelude::*;
use crate::double::Double;
use crate::model;
use crate::model::{
    epsilon, region, BoundingBox, FaceGeometry, FaceView, LandmarkKind, LandmarkRegion, Point,
    RegionView,
};

verus! {

/// Nanoseconds as seconds: the whole seconds plus the fraction.
#[verifier::allow_in_spec]
pub fn seconds(nanoseconds: u64) -> Double
    returns
        Double::integer((nanoseconds / 1_000_000_000) as u64) + Double::integer(
            (nanoseconds % 1_000_000_000) as u64,
        ) / Double::integer(1_000_000_000),
{
    Double::integer(nanoseconds / 1_000_000_000) + Double::integer(nanoseconds % 1_000_000_000)
        / Double::integer(1_000_000_000)
}

/// The time from one instant to another, in seconds; zero where the second is the earlier one.
/// Both count nanoseconds from a common start.
#[verifier::allow_in_spec]
pub fn seconds_between(earlier: u64, later: u64) -> Double
    returns
        seconds(
            (if earlier < later {
                later - earlier
            } else {
                0
            }) as u64,
        ),
{
    seconds(
        if earlier < later {
            later - earlier
        } else {
            0
        },
    )
}

#[verifier::allow_in_spec]
pub fn lerp(previous: Double, current: Double, alpha: Double) -> Double
    returns
        previous + (current - previous) * alpha,
{
    previous + (current - previous) * alpha
}

#[verifier::allow_in_spec]
pub fn lerp_point(previous: Point, current: Point, alpha: Double) -> Point
    returns
        (Point { x: lerp(previous.x, current.x, alpha), y: lerp(previous.y, current.y, alpha) }),
{
    Point { x: lerp(previous.x, current.x, alpha), y: lerp(previous.y, current.y, alpha) }
}

#[verifier::allow_in_spec]
pub fn center(bounds: BoundingBox) -> Point
    returns
        (Point {
            x: bounds.x + bounds.width / Double::integer(2),
            y: bounds.y + bounds.height / Double::integer(2),
        }),
{
    Point {
        x: bounds.x + bounds.width / Double::integer(2),
        y: bounds.y + bounds.height / Double::integer(2),
    }
}

#[verifier::allow_in_spec]
pub fn diagonal(bounds: BoundingBox) -> Double
    returns
        bounds.width.hypot(bounds.height),
{
    bounds.width.hypot(bounds.height)
}

/// The width of what two boxes share, not positive where they share nothing.
#[verifier::allow_in_spec]
pub fn shared_width(left: BoundingBox, right: BoundingBox) -> Double
    returns
        (left.x + left.width).min(right.x + right.width) - left.x.max(right.x),
{
    (left.x + left.width).min(right.x + right.width) - left.x.max(right.x)
}

/// The height of what two boxes share, not positive where they share nothing.
#[verifier::allow_in_spec]
pub fn shared_height(left: BoundingBox, right: BoundingBox) -> Double
    returns
        (left.y + left.height).min(right.y + right.height) - left.y.max(right.y),
{
    (left.y + left.height).min(right.y + right.height) - left.y.max(right.y)
}

/// The area that two boxes share over the area that they cover together.
pub open spec fn spec_intersection_over_union(left: BoundingBox, right: BoundingBox) -> Double {
    let zero = Double::integer(0);
    let width = shared_width(left, right);
    let height = shared_height(left, right);
    let intersection = width * height;
    let union = left.width * left.height + right.width * right.height - intersection;
    if width.at_most(zero) || height.at_most(zero) || union.at_most(epsilon()) {
        zero
    } else {
        intersection / union
    }
}

#[verifier::when_used_as_spec(spec_intersection_over_union)]
pub fn intersection_over_union(left: BoundingBox, right: BoundingBox) -> (r: Double)
    ensures
        r == spec_intersection_over_union(left, right),
{
    let zero = Double::integer(0);
    let width = shared_width(left, right);
    let height = shared_height(left, right);
    if width.at_most(zero) || height.at_most(zero) {
        return zero;
    }
    let intersection = width * height;
    let union = left.width * left.height + right.width * right.height - intersection;
    if union.at_most(epsilon()) {
        zero
    } else {
        intersection / union
    }
}

#[verifier::allow_in_spec]
pub fn smooth_bounds(previous: BoundingBox, current: BoundingBox, alpha: Double) -> BoundingBox
    returns
        (BoundingBox {
            x: lerp(previous.x, current.x, alpha),
            y: lerp(previous.y, current.y, alpha),
            width: lerp(previous.width, current.width, alpha),
            height: lerp(previous.height, current.height, alpha),
        }),
{
    BoundingBox {
        x: lerp(previous.x, current.x, alpha),
        y: lerp(previous.y, current.y, alpha),
        width: lerp(previous.width, current.width, alpha),
        height: lerp(previous.height, current.height, alpha),
    }
}

/// Smooths where both values are there, and keeps the one that is there otherwise.
#[verifier::allow_in_spec]
pub fn smooth_optional(previous: Option<Double>, current: Option<Double>, alpha: Double) -> Option<
    Double,
>
    returns
        (match (previous, current) {
            (Some(previous), Some(current)) => Some(lerp(previous, current, alpha)),
            (None, Some(current)) => Some(current),
            (previous, None) => previous,
        }),
{
    match (previous, current) {
        (Some(previous), Some(current)) => Some(lerp(previous, current, alpha)),
        (None, Some(current)) => Some(current),
        (previous, None) => previous,
    }
}

/// A region smoothed towards its points from those that the previous regions have of its kind;
/// as it is where they have not as many.
pub open spec fn spec_smooth_region(
    previous: Seq<RegionView>,
    region: RegionView,
    alpha: Double,
) -> RegionView {
    match model::spec_region(previous, region.kind) {
        Some(old) => if old.len() == region.points.len() {
            RegionView {
                kind: region.kind,
                points: Seq::new(
                    region.points.len(),
                    |i: int| lerp_point(old[i], region.points[i], alpha),
                ),
            }
        } else {
            region
        },
        None => region,
    }
}

fn smooth_region(previous: &Vec<LandmarkRegion>, current: &LandmarkRegion, alpha: Double) -> (r:
    LandmarkRegion)
    ensures
        r@ == spec_smooth_region(model::views(previous@), current@, alpha),
{
    match region(previous, current.kind) {
        Some(old) => {
            if old.len() == current.points.len() {
                let mut points: Vec<Point> = Vec::new();
                let mut i: usize = 0;
                while i < current.points.len()
                    invariant
                        i <= current.points.len(),
                        old.len() == current.points.len(),
                        points.len() == i,
                        forall|k: int|
                            0 <= k < i ==> #[trigger] points[k] == lerp_point(
                                old[k],
                                current.points[k],
                                alpha,
                            ),
                    decreases current.points.len() - i,
                {
                    points.push(lerp_point(old[i], current.points[i], alpha));
                    i += 1;
                }
                let result = LandmarkRegion { kind: current.kind, points };
                assert(result@ =~= spec_smooth_region(model::views(previous@), current@, alpha));
                result
            } else {
                current.clone()
            }
        },
        None => current.clone(),
    }
}

/// A face smoothed from its previous geometry towards the current one.
pub open spec fn spec_smooth_geometry(previous: FaceView, current: FaceView, alpha: Double) -> FaceView {
    let bounding_box = smooth_bounds(previous.bounding_box, current.bounding_box, alpha);
    let landmarks = current.landmarks.map_values(
        |region: RegionView| spec_smooth_region(previous.landmarks, region, alpha),
    );
    FaceView {
        confidence: current.confidence,
        landmark_confidence: current.landmark_confidence,
        bounding_box,
        roll_radians: smooth_optional(previous.roll_radians, current.roll_radians, alpha),
        yaw_radians: smooth_optional(previous.yaw_radians, current.yaw_radians, alpha),
        pitch_radians: smooth_optional(previous.pitch_radians, current.pitch_radians, alpha),
        measurements: FaceGeometry::spec_measurements(bounding_box, landmarks),
        landmarks,
    }
}

pub fn smooth_geometry(previous: &FaceGeometry, current: &FaceGeometry, alpha: Double) -> (r:
    FaceGeometry)
    ensures
        r@ == spec_smooth_geometry(previous@, current@, alpha),
{
    let bounding_box = smooth_bounds(previous.bounding_box, current.bounding_box, alpha);
    let mut landmarks: Vec<LandmarkRegion> = Vec::new();
    let mut i: usize = 0;
    while i < current.landmarks.len()
        invariant
            i <= current.landmarks.len(),
            landmarks.len() == i,
            forall|k: int|
                0 <= k < i ==> (#[trigger] landmarks[k])@ == spec_smooth_region(
                    model::views(previous.landmarks@),
                    current.landmarks[k]@,
                    alpha,
                ),
        decreases current.landmarks.len() - i,
    {
        landmarks.push(smooth_region(&previous.landmarks, &current.landmarks[i], alpha));
        i += 1;
    }
    assert(model::views(landmarks@) =~= current@.landmarks.map_values(
        |region: RegionView| spec_smooth_region(previous@.landmarks, region, alpha),
    ));
    let measurements = FaceGeometry::calculate_measurements(bounding_box, &landmarks);
    FaceGeometry {
        confidence: current.confidence,
        landmark_confidence: current.landmark_confidence,
        bounding_box,
        roll_radians: smooth_optional(previous.roll_radians, current.roll_radians, alpha),
        yaw_radians: smooth_optional(previous.yaw_radians, current.yaw_radians, alpha),
        pitch_radians: smooth_optional(previous.pitch_radians, current.pitch_radians, alpha),
        measurements,
        landmarks,
    }
}

/// A region moved by `offset`.
pub open spec fn moved_region(region: RegionView, offset: Point) -> RegionView {
    RegionView {
        kind: region.kind,
        points: region.points.map_values(|point: Point| point.plus(offset)),
    }
}

/// A face moved by `offset`, with the measurements that it had.
pub open spec fn moved_face(face: FaceView, offset: Point) -> FaceView {
    FaceView {
        bounding_box: BoundingBox {
            x: face.bounding_box.x + offset.x,
            y: face.bounding_box.y + offset.y,
            ..face.bounding_box
        },
        landmarks: face.landmarks.map_values(|region: RegionView| moved_region(region, offset)),
        ..face
    }
}

fn translated_region(region: &LandmarkRegion, offset: Point) -> (r: LandmarkRegion)
    ensures
        r@ == moved_region(region@, offset),
{
    let mut points: Vec<Point> = Vec::new();
    let mut i: usize = 0;
    while i < region.points.len()
        invariant
            i <= region.points.len(),
            points.len() == i,
            forall|k: int| 0 <= k < i ==> #[trigger] points[k] == region.points[k].plus(offset),
        decreases region.points.len() - i,
    {
        points.push(region.points[i].plus(offset));
        i += 1;
    }
    let moved = LandmarkRegion { kind: region.kind, points };
    assert(moved@ =~= moved_region(region@, offset));
    moved
}

pub fn translate_geometry(geometry: &mut FaceGeometry, offset: Point)
    ensures
        final(geometry)@ == moved_face(old(geometry)@, offset),
{
    let mut landmarks: Vec<LandmarkRegion> = Vec::new();
    let mut i: usize = 0;
    while i < geometry.landmarks.len()
        invariant
            i <= geometry.landmarks.len(),
            *geometry == *old(geometry),
            landmarks.len() == i,
            forall|k: int|
                0 <= k < i ==> (#[trigger] landmarks[k])@ == moved_region(
                    geometry.landmarks[k]@,
                    offset,
                ),
        decreases geometry.landmarks.len() - i,
    {
        landmarks.push(translated_region(&geometry.landmarks[i], offset));
        i += 1;
    }
    assert(model::views(landmarks@) =~= moved_face(geometry@, offset).landmarks);
    let bounds = geometry.bounding_box;
    geometry.bounding_box = BoundingBox {
        x: bounds.x + offset.x,
        y: bounds.y + offset.y,
        width: bounds.width,
        height: bounds.height,
    };
    geometry.landmarks = landmarks;
}

/// A point by its place in a box.
#[verifier::allow_in_spec]
pub fn normalized_point(point: Point, bounds: BoundingBox) -> Point
    returns
        (Point {
            x: (point.x - bounds.x) / bounds.width.max(epsilon()),
            y: (point.y - bounds.y) / bounds.height.max(epsilon()),
        }),
{
    Point {
        x: (point.x - bounds.x) / bounds.width.max(epsilon()),
        y: (point.y - bounds.y) / bounds.height.max(epsilon()),
    }
}

/// The sum over the first `k` points of the distances from their places in one box to those of
/// their counterparts in another.
pub open spec fn shape_sum(
    previous: Seq<Point>,
    previous_bounds: BoundingBox,
    current: Seq<Point>,
    current_bounds: BoundingBox,
    k: int,
) -> Double
    decreases k,
{
    if k <= 0 {
        Double::integer(0)
    } else {
        shape_sum(previous, previous_bounds, current, current_bounds, k - 1) + normalized_point(
            previous[k - 1],
            previous_bounds,
        ).distance(normalized_point(current[k - 1], current_bounds))
    }
}

/// The square root of two.
#[verifier::allow_in_spec]
pub fn root_of_two() -> Double
    returns
        (Double { bits: 0x3FF6_A09E_667F_3BCD }),
{
    Double { bits: 0x3FF6_A09E_667F_3BCD }
}

/// The mean distance of the points of two faces, each by its place in its box, over the diagonal
/// of a box; nothing where either has no list of all points, or where the lists are empty or
/// differ in length.
pub open spec fn spec_landmark_shape_distance(previous: FaceView, current: FaceView) -> Option<
    Double,
> {
    match (
        model::spec_region(previous.landmarks, LandmarkKind::AllPoints),
        model::spec_region(current.landmarks, LandmarkKind::AllPoints),
    ) {
        (Some(old), Some(new)) => if old.len() != new.len() || old.len() == 0 {
            None
        } else {
            Some(
                shape_sum(
                    old,
                    previous.bounding_box,
                    new,
                    current.bounding_box,
                    old.len() as int,
                ) / Double::integer(old.len() as u64) / root_of_two(),
            )
        },
        _ => None,
    }
}

pub fn landmark_shape_distance(previous: &FaceGeometry, current: &FaceGeometry) -> (r: Option<
    Double,
>)
    ensures
        r == spec_landmark_shape_distance(previous@, current@),
{
    let old = match region(&previous.landmarks, LandmarkKind::AllPoints) {
        Some(points) => points,
        None => {
            return None;
        },
    };
    let new = match region(&current.landmarks, LandmarkKind::AllPoints) {
        Some(points) => points,
        None => {
            return None;
        },
    };
    if old.len() != new.len() || old.len() == 0 {
        return None;
    }
    let mut sum = Double::integer(0);
    let mut i: usize = 0;
    while i < old.len()
        invariant
            i <= old.len(),
            old.len() == new.len(),
            sum == shape_sum(
                old@,
                previous.bounding_box,
                new@,
                current.bounding_box,
                i as int,
            ),
        decreases old.len() - i,
    {
        sum = sum + normalized_point(old[i], previous.bounding_box).distance(
            normalized_point(new[i], current.bounding_box),
        );
        i += 1;
    }
    Some(sum / Double::integer(old.len() as u64) / root_of_two())
}

} // verus!
