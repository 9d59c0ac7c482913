//! Moving a face as a whole leaves its proportions as they are.

use vstd::prelude::*;
use vstd::arithmetic::power2::pow2;
use crate::bounds;
use crate::double::Double;
use crate::model::{
    epsilon, midpoint, region_from, spec_region, spec_region_center, spec_region_diameter, widest,
    BoundingBox, FaceGeometry, LandmarkKind, Point, RegionView,
};
use crate::patterns;
use crate::rounding;

verus! {

/// `q` is `p` moved by `dx` and `dy`, in units of the smallest positive double, without a rounding.
pub open spec fn is_moved(p: Point, q: Point, dx: int, dy: int) -> bool {
    &&& p.x.is_finite() && q.x.is_finite() && q.x.value() == p.x.value() + dx
    &&& p.y.is_finite() && q.y.is_finite() && q.y.value() == p.y.value() + dy
}

/// Both points are missing, or the second is the first one moved.
pub open spec fn is_moved_if_any(p: Option<Point>, q: Option<Point>, dx: int, dy: int) -> bool {
    match (p, q) {
        (Some(p), Some(q)) => is_moved(p, q, dx, dy),
        (None, None) => true,
        _ => false,
    }
}

/// The middle between the eyes.
pub open spec fn middle(landmarks: Seq<RegionView>) -> Option<Point> {
    match (
        spec_region_center(landmarks, LandmarkKind::LeftEye),
        spec_region_center(landmarks, LandmarkKind::RightEye),
    ) {
        (Some(left), Some(right)) => Some(midpoint(left, right)),
        _ => None,
    }
}

/// `other` has regions of the same kinds and sizes.
pub open spec fn has_shape(landmarks: Seq<RegionView>, other: Seq<RegionView>) -> bool {
    &&& landmarks.len() == other.len()
    &&& forall|i: int|
        0 <= i < landmarks.len() ==> {
            &&& (#[trigger] landmarks[i]).kind == other[i].kind
            &&& landmarks[i].points.len() == other[i].points.len()
        }
}

proof fn lemma_product_pattern(x: Double, y: Double, c: Double)
    requires
        x.pattern() == y.pattern(),
    ensures
        (x * c).pattern() == (y * c).pattern(),
        x * x == y * y,
{
    reveal(Double::spec_mul);
    reveal(Double::nearest);
    x.lemma_order(y);
    vstd::arithmetic::power2::lemma_pow2_pos(1074);
    Double::lemma_format();
    let n = x.magnitude() * c.magnitude();
    let d = pow2(1074) as int;
    rounding::lemma_nearest_exists(n, d, 52, patterns::infinity(52, 2047));
    let p = patterns::rounded(n, d, 52, 2047);
    bounds::lemma_signed(x.negative() != c.negative(), p);
    bounds::lemma_signed(y.negative() != c.negative(), p);
    bounds::lemma_signed(x.negative() != c.negative(), crate::double::DOUBLE_INFINITY as int);
    bounds::lemma_signed(y.negative() != c.negative(), crate::double::DOUBLE_INFINITY as int);
}

/// The diagonal does not depend on the signs of the sides.
proof fn lemma_hypot_pattern(x: Double, x2: Double, y: Double, y2: Double)
    requires
        x.pattern() == x2.pattern(),
        y.pattern() == y2.pattern(),
    ensures
        x.hypot(y) == x2.hypot(y2),
{
    let up = Double { bits: 0x6570_0000_0000_0000 };
    let down = Double { bits: 0x1A70_0000_0000_0000 };
    lemma_product_pattern(x, x2, up);
    lemma_product_pattern(x, x2, down);
    lemma_product_pattern(y, y2, up);
    lemma_product_pattern(y, y2, down);
    lemma_product_pattern(x * up, x2 * up, up);
    lemma_product_pattern(x * down, x2 * down, up);
    lemma_product_pattern(y * up, y2 * up, up);
    lemma_product_pattern(y * down, y2 * down, up);
    assert(x.abs() == x2.abs());
    assert(y.abs() == y2.abs());
}

/// Values that are moved alike differ as before.
proof fn lemma_difference_stays(a: Double, a2: Double, b: Double, b2: Double, by: int)
    requires
        a.is_finite(),
        a2.is_finite(),
        b.is_finite(),
        b2.is_finite(),
        a2.value() == a.value() + by,
        b2.value() == b.value() + by,
    ensures
        (a2 - b2).pattern() == (a - b).pattern(),
{
    b.lemma_order(b.negated());
    b2.lemma_order(b2.negated());
    a.lemma_order(a2);
    reveal(Double::spec_add);
    bounds::lemma_signed(a.negative() && b.negated().negative(), 0);
    bounds::lemma_signed(a2.negative() && b2.negated().negative(), 0);
}

proof fn lemma_distance_stays(p: Point, p2: Point, q: Point, q2: Point, dx: int, dy: int)
    requires
        is_moved(p, p2, dx, dy),
        is_moved(q, q2, dx, dy),
    ensures
        p2.distance(q2) == p.distance(q),
{
    lemma_difference_stays(p.x, p2.x, q.x, q2.x, dx);
    lemma_difference_stays(p.y, p2.y, q.y, q2.y, dy);
    lemma_hypot_pattern(p.x - q.x, p2.x - q2.x, p.y - q.y, p2.y - q2.y);
}

proof fn lemma_widest_stays(
    points: Seq<Point>,
    other: Seq<Point>,
    dx: int,
    dy: int,
    i: int,
    j: int,
)
    requires
        points.len() == other.len(),
        forall|m: int| 0 <= m < points.len() ==> is_moved(#[trigger] points[m], other[m], dx, dy),
        i < points.len(),
        j <= points.len(),
    ensures
        widest(other, i, j) == widest(points, i, j),
    decreases i + 1, j,
{
    if i < 0 {
    } else if j <= i + 1 {
        lemma_widest_stays(points, other, dx, dy, i - 1, points.len() as int);
    } else {
        lemma_widest_stays(points, other, dx, dy, i, j - 1);
        assert(is_moved(points[i], other[i], dx, dy));
        assert(is_moved(points[j - 1], other[j - 1], dx, dy));
        lemma_distance_stays(points[i], other[i], points[j - 1], other[j - 1], dx, dy);
    }
}

/// The measurements do not depend on position: where the corners of the mouth, the centres of the
/// eyes and of the mouth, and the middle between the eyes are all moved by one vector without a
/// rounding, and the size of the box stays, they are the same.
pub proof fn law_measurements_ignore_position(
    bounds: BoundingBox,
    landmarks: Seq<RegionView>,
    moved: BoundingBox,
    other: Seq<RegionView>,
    dx: int,
    dy: int,
)
    requires
        moved.width == bounds.width,
        moved.height == bounds.height,
        is_moved_if_any(
            spec_region_center(landmarks, LandmarkKind::LeftEye),
            spec_region_center(other, LandmarkKind::LeftEye),
            dx,
            dy,
        ),
        is_moved_if_any(
            spec_region_center(landmarks, LandmarkKind::RightEye),
            spec_region_center(other, LandmarkKind::RightEye),
            dx,
            dy,
        ),
        is_moved_if_any(
            spec_region_center(landmarks, LandmarkKind::OuterLips),
            spec_region_center(other, LandmarkKind::OuterLips),
            dx,
            dy,
        ),
        is_moved_if_any(middle(landmarks), middle(other), dx, dy),
        match (
            spec_region(landmarks, LandmarkKind::OuterLips),
            spec_region(other, LandmarkKind::OuterLips),
        ) {
            (Some(a), Some(b)) => a.len() == b.len() && forall|i: int|
                0 <= i < a.len() ==> is_moved(#[trigger] a[i], b[i], dx, dy),
            (None, None) => true,
            _ => false,
        },
    ensures
        FaceGeometry::spec_measurements(moved, other) == FaceGeometry::spec_measurements(
            bounds,
            landmarks,
        ),
{
    match (
        spec_region_center(landmarks, LandmarkKind::LeftEye),
        spec_region_center(landmarks, LandmarkKind::RightEye),
    ) {
        (Some(left), Some(right)) => {
            let left2 = spec_region_center(other, LandmarkKind::LeftEye).unwrap();
            let right2 = spec_region_center(other, LandmarkKind::RightEye).unwrap();
            lemma_distance_stays(left, left2, right, right2, dx, dy);
            match spec_region_center(landmarks, LandmarkKind::OuterLips) {
                Some(mouth) => {
                    let mouth2 = spec_region_center(other, LandmarkKind::OuterLips).unwrap();
                    lemma_distance_stays(
                        midpoint(left, right),
                        midpoint(left2, right2),
                        mouth,
                        mouth2,
                        dx,
                        dy,
                    );
                },
                None => {},
            }
        },
        _ => {},
    }
    match (
        spec_region(landmarks, LandmarkKind::OuterLips),
        spec_region(other, LandmarkKind::OuterLips),
    ) {
        (Some(a), Some(b)) => {
            lemma_widest_stays(a, b, dx, dy, a.len() - 1, a.len() as int);
        },
        _ => {},
    }
}

proof fn lemma_region_shape(
    landmarks: Seq<RegionView>,
    other: Seq<RegionView>,
    kind: LandmarkKind,
    from: int,
)
    requires
        has_shape(landmarks, other),
        0 <= from,
    ensures
        match (region_from(landmarks, kind, from), region_from(other, kind, from)) {
            (Some(a), Some(b)) => a.len() == b.len(),
            (None, None) => true,
            _ => false,
        },
    decreases landmarks.len() - from,
{
    if from < landmarks.len() {
        assert(landmarks[from].kind == other[from].kind);
        if landmarks[from].kind != kind {
            lemma_region_shape(landmarks, other, kind, from + 1);
        }
    }
}

proof fn lemma_widest_shape(points: Seq<Point>, other: Seq<Point>, i: int, j: int)
    requires
        points.len() == other.len(),
    ensures
        widest(points, i, j) is None <==> widest(other, i, j) is None,
    decreases i + 1, j,
{
    if i < 0 {
    } else if j <= i + 1 {
        lemma_widest_shape(points, other, i - 1, points.len() as int);
    } else {
        lemma_widest_shape(points, other, i, j - 1);
    }
}

/// Wherever a face stands and however large it is, the same measurements are missing.
pub proof fn law_same_measurements_are_missing(
    bounds: BoundingBox,
    landmarks: Seq<RegionView>,
    moved: BoundingBox,
    other: Seq<RegionView>,
)
    requires
        has_shape(landmarks, other),
        epsilon().less(bounds.width.abs()) == epsilon().less(moved.width.abs()),
        epsilon().less(bounds.height.abs()) == epsilon().less(moved.height.abs()),
    ensures
        ({
            let a = FaceGeometry::spec_measurements(bounds, landmarks);
            let b = FaceGeometry::spec_measurements(moved, other);
            &&& a.inter_eye_distance_face_width is None <==> b.inter_eye_distance_face_width is None
            &&& a.mouth_width_face_width is None <==> b.mouth_width_face_width is None
            &&& a.eye_to_mouth_distance_face_height is None
                <==> b.eye_to_mouth_distance_face_height is None
        }),
{
    lemma_region_shape(landmarks, other, LandmarkKind::LeftEye, 0);
    lemma_region_shape(landmarks, other, LandmarkKind::RightEye, 0);
    lemma_region_shape(landmarks, other, LandmarkKind::OuterLips, 0);
    match (
        spec_region(landmarks, LandmarkKind::OuterLips),
        spec_region(other, LandmarkKind::OuterLips),
    ) {
        (Some(a), Some(b)) => {
            lemma_widest_shape(a, b, a.len() - 1, a.len() as int);
            assert(spec_region_diameter(landmarks, LandmarkKind::OuterLips) is None
                <==> spec_region_diameter(other, LandmarkKind::OuterLips) is None);
        },
        _ => {},
    }
}

} // verus!
