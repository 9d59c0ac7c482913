//! The warp of a mesh at strong yaw: the side that hides itself is drawn in.

use vstd::prelude::*;
use vstd::arithmetic::power2::pow2;
use crate::bounds;
use crate::camera::mesh;
use crate::camera::mesh::half;
use crate::double::Double;
use crate::model;
use crate::model::{epsilon, region, region_center, FaceGeometry, FaceView, LandmarkKind, Point};

verus! {

/// How strongly a mesh is warped: not at all up to eighteen degrees of yaw, in full from
/// forty-five degrees on.
#[verifier::allow_in_spec]
pub fn warp_strength(yaw_degrees: Double) -> Double
    returns
        ((yaw_degrees.abs() - Double::integer(18)) / (Double::integer(45) - Double::integer(
            18,
        ))).clamp(Double::integer(0), Double::integer(1)),
{
    ((yaw_degrees.abs() - Double::integer(18)) / (Double::integer(45) - Double::integer(18))).clamp(
        Double::integer(0),
        Double::integer(1),
    )
}

/// How far the mesh may reach from the axis of the face.
#[verifier::allow_in_spec]
pub fn warp_margin(width: Double, strength: Double) -> Double
    returns
        width * (Double::ratio(52, 100) + (Double::ratio(16, 100) - Double::ratio(52, 100))
            * strength),
{
    width * (Double::ratio(52, 100) + (Double::ratio(16, 100) - Double::ratio(52, 100)) * strength)
}

/// The space that eyes and eyebrows take.
#[derive(Clone, Copy, Debug, PartialEq, Eq, Structural)]
pub struct EyeFeatureEnvelope {
    pub min_x: Double,
    pub max_x: Double,
    pub min_y: Double,
    pub max_y: Double,
}

impl EyeFeatureEnvelope {
    /// How much the envelope counts at a height: in full between its lower and its upper edge, and
    /// less the farther away.
    #[verifier::allow_in_spec]
    pub fn vertical_influence(self, y: Double, face_height: Double) -> Double
        returns
            (if y.less(self.min_y) {
                tapered(self.min_y - y, face_height)
            } else if self.max_y.less(y) {
                tapered(y - self.max_y, face_height)
            } else {
                Double::integer(1)
            }),
    {
        if y.less(self.min_y) {
            tapered(self.min_y - y, face_height)
        } else if self.max_y.less(y) {
            tapered(y - self.max_y, face_height)
        } else {
            Double::integer(1)
        }
    }

    /// The envelope with one point more.
    #[verifier::allow_in_spec]
    pub fn with(self, point: Point) -> EyeFeatureEnvelope
        returns
            (EyeFeatureEnvelope {
                min_x: self.min_x.min(point.x),
                max_x: self.max_x.max(point.x),
                min_y: self.min_y.min(point.y),
                max_y: self.max_y.max(point.y),
            }),
    {
        EyeFeatureEnvelope {
            min_x: self.min_x.min(point.x),
            max_x: self.max_x.max(point.x),
            min_y: self.min_y.min(point.y),
            max_y: self.max_y.max(point.y),
        }
    }
}

/// One at no distance, zero from seven hundredths of the face's height on.
#[verifier::allow_in_spec]
pub fn tapered(distance: Double, face_height: Double) -> Double
    returns
        (Double::integer(1) - distance / (face_height * Double::ratio(7, 100)).max(
            epsilon(),
        )).clamp(Double::integer(0), Double::integer(1)),
{
    (Double::integer(1) - distance / (face_height * Double::ratio(7, 100)).max(epsilon())).clamp(
        Double::integer(0),
        Double::integer(1),
    )
}

/// The envelope of the first `k` points.
pub open spec fn envelope_of(points: Seq<Point>, k: int) -> Option<EyeFeatureEnvelope>
    decreases k,
{
    if k <= 0 {
        None
    } else {
        let point = points[k - 1];
        match envelope_of(points, k - 1) {
            Some(envelope) => Some(envelope.with(point)),
            None => Some(
                EyeFeatureEnvelope {
                    min_x: point.x,
                    max_x: point.x,
                    min_y: point.y,
                    max_y: point.y,
                },
            ),
        }
    }
}

/// The envelope of the eyes and eyebrows of a face.
pub open spec fn spec_eye_feature_envelope(face: FaceView) -> Option<EyeFeatureEnvelope> {
    let points = mesh::eye_points(face);
    envelope_of(points, points.len() as int)
}

pub fn eye_feature_envelope(face: &FaceGeometry) -> (r: Option<EyeFeatureEnvelope>)
    ensures
        r == spec_eye_feature_envelope(face@),
{
    let points = mesh::gather(&face.landmarks, true);
    let mut envelope: Option<EyeFeatureEnvelope> = None;
    let mut i: usize = 0;
    while i < points.len()
        invariant
            i <= points.len(),
            envelope == envelope_of(points@, i as int),
        decreases points.len() - i,
    {
        let point = points[i];
        envelope =
        match envelope {
            Some(envelope) => Some(envelope.with(point)),
            None => Some(
                EyeFeatureEnvelope {
                    min_x: point.x,
                    max_x: point.x,
                    min_y: point.y,
                    max_y: point.y,
                },
            ),
        };
        i += 1;
    }
    envelope
}

/// Points sorted by height with one more, which comes after those of its height.
pub open spec fn inserted(points: Seq<Point>, point: Point) -> Seq<Point>
    decreases points.len(),
{
    if points.len() > 0 && point.y.precedes(points.last().y) {
        inserted(points.drop_last(), point).push(points.last())
    } else {
        points.push(point)
    }
}

proof fn lemma_inserted_at(points: Seq<Point>, point: Point, k: int)
    requires
        0 <= k <= points.len(),
        forall|i: int| k <= i < points.len() ==> point.y.precedes((#[trigger] points[i]).y),
        k > 0 ==> !point.y.precedes(points[k - 1].y),
    ensures
        inserted(points, point) == points.insert(k, point),
    decreases points.len(),
{
    if k < points.len() {
        let rest = points.drop_last();
        assert(point.y.precedes(points[points.len() - 1].y));
        lemma_inserted_at(rest, point, k);
        assert(rest.insert(k, point).push(points.last()) =~= points.insert(k, point));
    } else {
        assert(points.push(point) =~= points.insert(k, point));
    }
}

fn insert_by_height(points: &mut Vec<Point>, point: Point)
    ensures
        final(points)@ == inserted(old(points)@, point),
{
    let mut k: usize = points.len();
    while k > 0 && point.y.precedes(points[k - 1].y)
        invariant
            k <= points.len(),
            points@ == old(points)@,
            forall|i: int| k <= i < points.len() ==> point.y.precedes((#[trigger] points[i]).y),
        decreases k,
    {
        k -= 1;
    }
    proof {
        lemma_inserted_at(points@, point, k as int);
    }
    points.insert(k, point);
}

/// Points with one more, where there is one.
pub open spec fn inserted_optional(points: Seq<Point>, point: Option<Point>) -> Seq<Point> {
    match point {
        Some(point) => inserted(points, point),
        None => points,
    }
}

fn insert_optional(points: &mut Vec<Point>, point: Option<Point>)
    ensures
        final(points)@ == inserted_optional(old(points)@, point),
{
    if let Some(point) = point {
        insert_by_height(points, point);
    }
}

/// Whether two heights are as good as one.
#[verifier::allow_in_spec]
pub fn is_level(later: Point, earlier: Point) -> bool
    returns
        (later.y - earlier.y).abs().less(Double::ratio(1, 100_000_000)),
{
    (later.y - earlier.y).abs().less(Double::ratio(1, 100_000_000))
}

/// The first `k` points without those that are level with the one kept before.
pub open spec fn levelled(points: Seq<Point>, k: int) -> Seq<Point>
    decreases k,
{
    if k <= 0 {
        Seq::empty()
    } else {
        let before = levelled(points, k - 1);
        if before.len() > 0 && is_level(points[k - 1], before.last()) {
            before
        } else {
            before.push(points[k - 1])
        }
    }
}

fn level(points: &Vec<Point>) -> (r: Vec<Point>)
    ensures
        r@ == levelled(points@, points.len() as int),
{
    let mut kept: Vec<Point> = Vec::new();
    let mut i: usize = 0;
    while i < points.len()
        invariant
            i <= points.len(),
            kept@ == levelled(points@, i as int),
        decreases points.len() - i,
    {
        if kept.len() == 0 || !is_level(points[i], kept[kept.len() - 1]) {
            kept.push(points[i]);
        }
        i += 1;
    }
    kept
}

/// The lowest one of the first `k` points, the first one where several are.
pub open spec fn lowest(points: Seq<Point>, k: int) -> Option<Point>
    decreases k,
{
    if k <= 0 {
        None
    } else {
        match lowest(points, k - 1) {
            Some(best) => if points[k - 1].y.precedes(best.y) {
                Some(points[k - 1])
            } else {
                Some(best)
            },
            None => Some(points[k - 1]),
        }
    }
}

fn find_lowest(points: &Vec<Point>) -> (r: Option<Point>)
    ensures
        r == lowest(points@, points.len() as int),
{
    let mut best: Option<Point> = None;
    let mut i: usize = 0;
    while i < points.len()
        invariant
            i <= points.len(),
            best == lowest(points@, i as int),
        decreases points.len() - i,
    {
        best =
        match best {
            Some(best) => {
                if points[i].y.precedes(best.y) {
                    Some(points[i])
                } else {
                    Some(best)
                }
            },
            None => Some(points[i]),
        };
        i += 1;
    }
    best
}

/// The middle between the eyes.
pub open spec fn eyes_of(face: FaceView) -> Option<Point> {
    match (
        model::spec_region_center(face.landmarks, LandmarkKind::LeftEye),
        model::spec_region_center(face.landmarks, LandmarkKind::RightEye),
    ) {
        (Some(left), Some(right)) => Some(
            Point { x: half(left.x + right.x), y: half(left.y + right.y) },
        ),
        _ => None,
    }
}

/// The lowest point of the contour.
pub open spec fn chin_of(face: FaceView) -> Option<Point> {
    match model::spec_region(face.landmarks, LandmarkKind::FaceContour) {
        Some(points) => lowest(points, points.len() as int),
        None => None,
    }
}

/// The axis of a face from below: chin, mouth, nose, eyes and the upper edge of the box, as far as
/// they are there.
pub open spec fn spec_yaw_visibility_axis(face: FaceView) -> Seq<Point> {
    let bounds = face.bounding_box;
    let top = Point {
        x: match (eyes_of(face), model::spec_nose(face.landmarks)) {
            (Some(eyes), _) => eyes.x,
            (None, Some(nose)) => nose.x,
            (None, None) => bounds.x + half(bounds.width),
        },
        y: bounds.y + bounds.height,
    };
    let sorted = inserted_optional(
        inserted_optional(
            inserted_optional(
                inserted_optional(seq![top], eyes_of(face)),
                model::spec_nose(face.landmarks),
            ),
            model::spec_region_center(face.landmarks, LandmarkKind::OuterLips),
        ),
        chin_of(face),
    );
    levelled(sorted, sorted.len() as int)
}

pub fn yaw_visibility_axis(face: &FaceGeometry) -> (r: Vec<Point>)
    ensures
        r@ == spec_yaw_visibility_axis(face@),
{
    let bounds = face.bounding_box;
    let eyes = match (
        region_center(&face.landmarks, LandmarkKind::LeftEye),
        region_center(&face.landmarks, LandmarkKind::RightEye),
    ) {
        (Some(left), Some(right)) => Some(
            Point { x: half(left.x + right.x), y: half(left.y + right.y) },
        ),
        _ => None,
    };
    let nose = model::nose(&face.landmarks);
    let mouth = region_center(&face.landmarks, LandmarkKind::OuterLips);
    let chin = match region(&face.landmarks, LandmarkKind::FaceContour) {
        Some(points) => find_lowest(points),
        None => None,
    };
    let x = match (eyes, nose) {
        (Some(eyes), _) => eyes.x,
        (None, Some(nose)) => nose.x,
        (None, None) => bounds.x + half(bounds.width),
    };
    let mut axis: Vec<Point> = Vec::new();
    let top = Point { x, y: bounds.y + bounds.height };
    axis.push(top);
    assert(axis@ =~= seq![top]);
    insert_optional(&mut axis, eyes);
    insert_optional(&mut axis, nose);
    insert_optional(&mut axis, mouth);
    insert_optional(&mut axis, chin);
    level(&axis)
}

/// The place on a line between two points at a height.
#[verifier::allow_in_spec]
pub fn between(lower: Point, upper: Point, y: Double) -> Double
    returns
        lower.x + (upper.x - lower.x) * ((y - lower.y) / (upper.y - lower.y)),
{
    lower.x + (upper.x - lower.x) * ((y - lower.y) / (upper.y - lower.y))
}

/// The place of an axis at a height, from its part from point `i` on.
pub open spec fn axis_from(axis: Seq<Point>, y: Double, i: int) -> Double
    decreases axis.len() - i,
{
    if i < 0 || i + 1 >= axis.len() {
        axis[axis.len() - 1].x
    } else if axis[i].y.at_most(y) && y.at_most(axis[i + 1].y) {
        between(axis[i], axis[i + 1], y)
    } else {
        axis_from(axis, y, i + 1)
    }
}

/// The place of an axis at a height: that of its ends beyond them.
pub open spec fn spec_interpolate_axis_x(axis: Seq<Point>, y: Double) -> Double {
    if y.at_most(axis[0].y) {
        axis[0].x
    } else if axis[axis.len() - 1].y.at_most(y) {
        axis[axis.len() - 1].x
    } else {
        axis_from(axis, y, 0)
    }
}

pub fn interpolate_axis_x(axis: &Vec<Point>, y: Double) -> (r: Double)
    requires
        axis.len() > 0,
    ensures
        r == spec_interpolate_axis_x(axis@, y),
{
    let last: usize = axis.len() - 1;
    if y.at_most(axis[0].y) {
        return axis[0].x;
    }
    if axis[last].y.at_most(y) {
        return axis[last].x;
    }
    let mut i: usize = 0;
    while i < last
        invariant
            last == axis.len() - 1,
            i <= last,
            !y.at_most(axis[0].y),
            !axis[last as int].y.at_most(y),
            axis_from(axis@, y, 0) == axis_from(axis@, y, i as int),
        decreases last - i,
    {
        if axis[i].y.at_most(y) && y.at_most(axis[i + 1].y) {
            return between(axis[i], axis[i + 1], y);
        }
        i += 1;
    }
    axis[last].x
}

/// The limit of the mesh on a side at a height: at the margin, or farther out where eyes and
/// eyebrows are.
pub open spec fn spec_side_limit(
    center: Double,
    margin: Double,
    envelope: Option<EyeFeatureEnvelope>,
    right: bool,
    y: Double,
    width: Double,
    height: Double,
) -> Double {
    let limit = if right {
        center + margin
    } else {
        center - margin
    };
    match envelope {
        Some(envelope) => {
            let expanded = if right {
                limit.max(envelope.max_x + width * Double::ratio(18, 1000))
            } else {
                limit.min(envelope.min_x - width * Double::ratio(18, 1000))
            };
            limit + (expanded - limit) * envelope.vertical_influence(y, height)
        },
        None => limit,
    }
}

fn side_limit(
    center: Double,
    margin: Double,
    envelope: Option<EyeFeatureEnvelope>,
    right: bool,
    y: Double,
    width: Double,
    height: Double,
) -> (r: Double)
    ensures
        r == spec_side_limit(center, margin, envelope, right, y, width, height),
{
    let limit = if right {
        center + margin
    } else {
        center - margin
    };
    match envelope {
        Some(envelope) => {
            let expanded = if right {
                limit.max(envelope.max_x + width * Double::ratio(18, 1000))
            } else {
                limit.min(envelope.min_x - width * Double::ratio(18, 1000))
            };
            limit + (expanded - limit) * envelope.vertical_influence(y, height)
        },
        None => limit,
    }
}

/// A place beyond a limit on a side, drawn towards it; any other place as it is.
#[verifier::allow_in_spec]
pub fn drawn_in(x: Double, limit: Double, right: bool, strength: Double) -> Double
    returns
        (if (right && limit.less(x)) || (!right && x.less(limit)) {
            limit + (x - limit) * (Double::integer(1) - strength)
        } else {
            x
        }),
{
    if (right && limit.less(x)) || (!right && x.less(limit)) {
        limit + (x - limit) * (Double::integer(1) - strength)
    } else {
        x
    }
}

/// Whether a turn hides the right side of a face.
pub open spec fn hides_right(yaw_degrees: Double) -> bool {
    Double::integer(0).less(yaw_degrees)
}

/// The limit on the hidden side of a face that is turned by an angle, at a height.
pub open spec fn limit_at(face: FaceView, yaw_degrees: Double, y: Double) -> Double {
    let width = face.bounding_box.width;
    spec_side_limit(
        spec_interpolate_axis_x(spec_yaw_visibility_axis(face), y),
        warp_margin(width, warp_strength(yaw_degrees)),
        spec_eye_feature_envelope(face),
        hides_right(yaw_degrees),
        y,
        width,
        face.bounding_box.height,
    )
}

/// That limit where no eyes or eyebrows are.
pub open spec fn margin_at(face: FaceView, yaw_degrees: Double, y: Double) -> Double {
    let center = spec_interpolate_axis_x(spec_yaw_visibility_axis(face), y);
    let margin = warp_margin(face.bounding_box.width, warp_strength(yaw_degrees));
    if hides_right(yaw_degrees) {
        center + margin
    } else {
        center - margin
    }
}

/// A vertex of the mesh of a face that is turned by an angle.
pub open spec fn warped_vertex(face: FaceView, yaw_degrees: Double, vertex: Point) -> Point {
    Point {
        x: drawn_in(
            vertex.x,
            limit_at(face, yaw_degrees, vertex.y),
            hides_right(yaw_degrees),
            warp_strength(yaw_degrees),
        ),
        y: vertex.y,
    }
}

/// The vertices of the mesh of a face: as they are where the yaw is not known or weak, or the face
/// has no axis.
pub open spec fn warped(face: FaceView, vertices: Seq<Point>) -> Seq<Point> {
    match face.yaw_radians {
        Some(yaw) => if warp_strength(yaw.to_degrees()).at_most(epsilon())
            || spec_yaw_visibility_axis(face).len() < 2 {
            vertices
        } else {
            vertices.map_values(|vertex: Point| warped_vertex(face, yaw.to_degrees(), vertex))
        },
        None => vertices,
    }
}

pub fn apply_yaw_visibility_warp(face: &FaceGeometry, vertices: &mut Vec<Point>)
    ensures
        final(vertices)@ == warped(face@, old(vertices)@),
        final(vertices).len() == old(vertices).len(),
{
    let yaw_degrees = match face.yaw_radians {
        Some(yaw) => yaw.to_degrees(),
        None => {
            return;
        },
    };
    let strength = warp_strength(yaw_degrees);
    if strength.at_most(epsilon()) {
        return;
    }
    let axis = yaw_visibility_axis(face);
    if axis.len() < 2 {
        return;
    }
    let width = face.bounding_box.width;
    let height = face.bounding_box.height;
    let margin = warp_margin(width, strength);
    let envelope = eye_feature_envelope(face);
    let right = Double::integer(0).less(yaw_degrees);
    let mut moved: Vec<Point> = Vec::new();
    let mut i: usize = 0;
    while i < vertices.len()
        invariant
            i <= vertices.len(),
            vertices@ == old(vertices)@,
            axis@ == spec_yaw_visibility_axis(face@),
            axis.len() >= 2,
            strength == warp_strength(yaw_degrees),
            width == face.bounding_box.width,
            height == face.bounding_box.height,
            margin == warp_margin(width, strength),
            envelope == spec_eye_feature_envelope(face@),
            right == Double::integer(0).less(yaw_degrees),
            moved.len() == i,
            forall|k: int|
                0 <= k < i ==> #[trigger] moved[k] == warped_vertex(
                    face@,
                    yaw_degrees,
                    vertices[k],
                ),
        decreases vertices.len() - i,
    {
        let vertex = vertices[i];
        let center = interpolate_axis_x(&axis, vertex.y);
        let limit = side_limit(center, margin, envelope, right, vertex.y, width, height);
        moved.push(Point { x: drawn_in(vertex.x, limit, right, strength), y: vertex.y });
        i += 1;
    }
    assert(moved@ =~= warped(face@, vertices@));
    *vertices = moved;
}

/// A warp moves points only sideways, and of a turn to one side only those beyond the limit on
/// that side.
pub proof fn law_only_the_hidden_side_moves(face: FaceView, vertices: Seq<Point>, i: int)
    requires
        0 <= i < vertices.len(),
    ensures
        warped(face, vertices).len() == vertices.len(),
        warped(face, vertices)[i].y == vertices[i].y,
        face.yaw_radians is None ==> warped(face, vertices) == vertices,
        warped(face, vertices)[i] != vertices[i] ==> {
            let yaw_degrees = face.yaw_radians->0.to_degrees();
            let limit = limit_at(face, yaw_degrees, vertices[i].y);
            if hides_right(yaw_degrees) {
                limit.less(vertices[i].x)
            } else {
                vertices[i].x.less(limit)
            }
        },
{
}

/// What a strong warp leaves of a distance: nothing to all of it but `2^-52`.
proof fn lemma_left_of_distance(strength: Double)
    requires
        !strength.nan(),
        !strength.at_most(epsilon()),
        strength.at_most(Double::integer(1)),
    ensures
        ({
            let left = Double::integer(1) - strength;
            &&& left.is_finite()
            &&& 0 <= left.value() <= pow2(1074) - pow2(1022)
        }),
{
    let one = Double::integer(1);
    let zero = Double { bits: 0 };
    let most = Double { bits: 0x3FEF_FFFF_FFFF_FFFE };
    bounds::lemma_one();
    bounds::lemma_power_ratio();
    strength.lemma_order(one);
    strength.lemma_order(strength.negated());
    epsilon().lemma_order(zero);
    vstd::arithmetic::power2::lemma_pow2_pos(1022);
    bounds::lemma_below_one();
    assert(epsilon().value() >= pow2(1022));
    bounds::lemma_sum_between(one, strength.negated(), zero, most);
}

/// A warp draws points towards the limit of the hidden side and not past it: what it moves stays
/// between the limit and its old place.
pub proof fn law_moved_stays_between(face: FaceView, vertices: Seq<Point>, i: int)
    requires
        0 <= i < vertices.len(),
        face.yaw_radians is Some,
        !warp_strength(face.yaw_radians->0.to_degrees()).nan(),
        vertices[i].x.is_finite(),
        limit_at(face, face.yaw_radians->0.to_degrees(), vertices[i].y).is_finite(),
        (vertices[i].x - limit_at(
            face,
            face.yaw_radians->0.to_degrees(),
            vertices[i].y,
        )).is_finite(),
    ensures
        ({
            let yaw_degrees = face.yaw_radians->0.to_degrees();
            let limit = limit_at(face, yaw_degrees, vertices[i].y);
            let old_x = vertices[i].x;
            let new_x = warped(face, vertices)[i].x;
            if hides_right(yaw_degrees) && limit.less(old_x) {
                limit.at_most(new_x) && new_x.at_most(old_x)
            } else if !hides_right(yaw_degrees) && old_x.less(limit) {
                old_x.at_most(new_x) && new_x.at_most(limit)
            } else {
                new_x == old_x
            }
        }),
{
    let yaw_degrees = face.yaw_radians->0.to_degrees();
    let strength = warp_strength(yaw_degrees);
    let limit = limit_at(face, yaw_degrees, vertices[i].y);
    let x = vertices[i].x;
    let zero = Double { bits: 0 };
    bounds::lemma_one();
    bounds::lemma_zero();
    zero.lemma_order(Double::integer(1));
    vstd::arithmetic::power2::lemma_pow2_pos(1074);
    if !strength.at_most(epsilon()) {
        assert(strength.at_most(Double::integer(1)));
        lemma_left_of_distance(strength);
        if x.value() != limit.value() {
            bounds::lemma_drawn_between(x, limit, Double::integer(1) - strength);
        }
    }
}

/// The distance that the limit keeps from eyes and eyebrows.
proof fn lemma_clearance(width: Double)
    requires
        width.is_finite(),
        pow2(100) <= width.value(),
    ensures
        ({
            let gap = width * Double::ratio(18, 1000);
            &&& gap.is_finite()
            &&& !gap.negative()
            &&& width.value() <= 128 * gap.value()
            &&& gap.value() <= width.value()
        }),
{
    let share = Double::ratio(18, 1000);
    let gap = width * share;
    let unit = pow2(1074) as int;
    let part = pow2(1068) as int;
    let w = width.magnitude();
    bounds::lemma_ratio_below(18, 1000, 1);
    vstd::arithmetic::power2::lemma_pow2_pos(100);
    vstd::arithmetic::power2::lemma_pow2_pos(1068);
    vstd::arithmetic::power2::lemma_pow2_adds(6, 1068);
    vstd::arithmetic::power2::lemma_pow2_adds(3, 1071);
    vstd::arithmetic::power2::lemma_pow2_strictly_increases(59, 100);
    vstd::arithmetic::power2::lemma2_to64();
    vstd::arithmetic::power2::lemma2_to64_rest();
    assert(pow2(53) == 0x20_0000_0000_0000);
    assert(pow2(52) == 0x10_0000_0000_0000);
    width.lemma_order(share);
    bounds::lemma_share_above(18, 1000, 1068);
    let c = share.magnitude();
    let n = w * c;
    assert(n <= w * unit) by (nonlinear_arith)
        requires
            n == w * c,
            c <= unit,
            0 <= w,
    ;
    assert(n >= w * part) by (nonlinear_arith)
        requires
            n == w * c,
            c >= part,
            0 <= w,
    ;
    bounds::lemma_product_error(width, share);
    let g = gap.magnitude();
    let q = 0x20_0000_0000_0000int;
    assert(w <= 128 * g) by {
        if 128 * g < w {
            let error = g * unit - n;
            assert(pow2(53) * error == q * error && pow2(52) * pow2(1074) == 0x10_0000_0000_0000
                * unit) by (nonlinear_arith)
                requires
                    pow2(53) == q,
                    pow2(52) == 0x10_0000_0000_0000,
                    unit == pow2(1074),
            ;
            assert(q * (g * unit - n) == q * (g * unit) - q * n) by (nonlinear_arith);
            assert(128 * (q * (g * unit)) < q * (w * unit)) by (nonlinear_arith)
                requires
                    128 * g < w,
                    unit > 0,
                    q == 0x20_0000_0000_0000,
            ;
            assert(w * unit == 64 * (w * part)) by (nonlinear_arith)
                requires
                    unit == 64 * part,
            ;
            assert((q - 2) * (w * unit) >= 0x800_0000_0000_0000 * unit) by (nonlinear_arith)
                requires
                    w >= 0x800_0000_0000_0000,
                    unit > 0,
                    q == 0x20_0000_0000_0000,
            ;
            assert((q - 1) * n >= (q - 1) * (w * part)) by (nonlinear_arith)
                requires
                    n >= w * part,
                    q == 0x20_0000_0000_0000,
            ;
            assert((q - 1) * n == q * n - n) by (nonlinear_arith);
            assert((q - 1) * (w * part) == q * (w * part) - w * part) by (nonlinear_arith);
            assert((q - 2) * (w * unit) == q * (w * unit) - 2 * (w * unit)) by (nonlinear_arith);
            assert(q * (w * unit) == 64 * (q * (w * part))) by (nonlinear_arith)
                requires
                    w * unit == 64 * (w * part),
            ;
            assert(false);
        }
    }
}

/// A limit that is drawn out to clear eyes and eyebrows clears them.
proof fn lemma_limit_clears(plain: Double, edge: Double, width: Double, right: bool)
    requires
        plain.is_finite(),
        edge.is_finite(),
        width.is_finite(),
        pow2(100) <= width.value() <= pow2(2000),
        plain.magnitude() <= pow2(40) * width.value(),
        edge.magnitude() <= pow2(40) * width.value(),
    ensures
        ({
            let gap = width * Double::ratio(18, 1000);
            let expanded = if right {
                plain.max(edge + gap)
            } else {
                plain.min(edge - gap)
            };
            let limit = plain + (expanded - plain) * Double::integer(1);
            &&& limit.is_finite()
            &&& if right {
                edge.value() <= limit.value()
            } else {
                limit.value() <= edge.value()
            }
        }),
{
    let gap = width * Double::ratio(18, 1000);
    let w = width.value();
    lemma_clearance(width);
    gap.lemma_order(gap.negated());
    edge.lemma_order(plain);
    vstd::arithmetic::power2::lemma2_to64();
    vstd::arithmetic::power2::lemma2_to64_rest();
    assert(pow2(40) == 0x100_0000_0000);
    assert(pow2(53) == 0x20_0000_0000_0000);
    vstd::arithmetic::power2::lemma_pow2_pos(100);
    let feature = if right {
        edge + gap
    } else {
        edge - gap
    };
    let most = pow2(2041) as int;
    vstd::arithmetic::power2::lemma_pow2_adds(41, 2000);
    vstd::arithmetic::power2::lemma_pow2_strictly_increases(2000, 2041);
    assert(pow2(41) == 0x200_0000_0000);
    assert(bounds::is_within(edge, 2041));
    assert(bounds::is_within(gap, 2041));
    assert(bounds::is_within(plain, 2041));
    bounds::lemma_sum_within(edge, gap, 2041);
    if right {
        bounds::lemma_sum_error(edge, gap);
    } else {
        bounds::lemma_sum_error(edge, gap.negated());
    }
    assert(feature.is_finite());
    feature.lemma_order(plain);
    let expanded = if right {
        plain.max(feature)
    } else {
        plain.min(feature)
    };
    assert(expanded == plain || expanded == feature);
    plain.lemma_order(plain.negated());
    bounds::lemma_within_wider(plain, 2041, 2042);
    bounds::lemma_sum_within(expanded, plain, 2042);
    let way = expanded - plain;
    bounds::lemma_sum_error(expanded, plain.negated());
    bounds::lemma_times_one(way);
    bounds::lemma_within_wider(plain, 2042, 2043);
    bounds::lemma_sum_within(plain, way, 2043);
    let high = Double { bits: 0x7CF0_0000_0000_0000 };
    let low = Double { bits: 0xFCF0_0000_0000_0000 };
    bounds::lemma_power_pattern(2050);
    assert(high.magnitude() == pow2(2050) && low.magnitude() == pow2(2050)) by {
        reveal(Double::magnitude);
    }
    vstd::arithmetic::power2::lemma_pow2_strictly_increases(2043, 2050);
    vstd::arithmetic::power2::lemma_pow2_strictly_increases(2044, 2050);
    vstd::arithmetic::power2::lemma_pow2_unfold(2044);
    way.lemma_order(plain);
    assert(-pow2(2044) <= plain.value() + way.value() <= pow2(2044));
    if right {
        assert(edge.value() <= plain.value() + way.value());
        bounds::lemma_sum_between(plain, way, edge, high);
    } else {
        assert(plain.value() + way.value() <= edge.value());
        bounds::lemma_sum_between(plain, way, low, edge);
    }
}

/// Eyes and eyebrows are not warped: a point in their envelope stays where it is, whatever the
/// turn, where the numbers are of moderate size against the width of the box.
pub proof fn law_eyes_stay(face: FaceView, vertices: Seq<Point>, i: int)
    requires
        0 <= i < vertices.len(),
        face.yaw_radians is Some,
        spec_eye_feature_envelope(face) is Some,
        ({
            let eyes = spec_eye_feature_envelope(face)->0;
            let width = face.bounding_box.width;
            let plain = margin_at(face, face.yaw_radians->0.to_degrees(), vertices[i].y);
            &&& eyes.min_x.at_most(vertices[i].x) && vertices[i].x.at_most(eyes.max_x)
            &&& eyes.min_y.at_most(vertices[i].y) && vertices[i].y.at_most(eyes.max_y)
            &&& width.is_finite() && pow2(100) <= width.value() <= pow2(2000)
            &&& plain.is_finite() && plain.magnitude() <= pow2(40) * width.value()
            &&& eyes.min_x.is_finite() && eyes.min_x.magnitude() <= pow2(40) * width.value()
            &&& eyes.max_x.is_finite() && eyes.max_x.magnitude() <= pow2(40) * width.value()
        }),
    ensures
        warped(face, vertices)[i] == vertices[i],
{
    let yaw_degrees = face.yaw_radians->0.to_degrees();
    let right = hides_right(yaw_degrees);
    let eyes = spec_eye_feature_envelope(face)->0;
    let width = face.bounding_box.width;
    let plain = margin_at(face, yaw_degrees, vertices[i].y);
    let edge = if right {
        eyes.max_x
    } else {
        eyes.min_x
    };
    lemma_limit_clears(plain, edge, width, right);
    assert(eyes.vertical_influence(vertices[i].y, face.bounding_box.height) == Double::integer(1));
}

} // verus!
