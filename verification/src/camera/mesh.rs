//! The mesh that is drawn over a face: landmarks, a forehead that is not landmarked, and points
//! between them, triangulated.

use vstd::prelude::*;
use crate::double::Double;
use crate::model;
use crate::model::{
    epsilon, region, region_center, BoundingBox, FaceGeometry, FaceView, LandmarkKind,
    LandmarkRegion, Point, RegionView,
};

verus! {

/// Half of a value.
#[verifier::allow_in_spec]
pub fn half(value: Double) -> Double
    returns
        value * Double::ratio(1, 2),
{
    value * Double::ratio(1, 2)
}

/// Whether two points are as good as one, in a box of a size.
#[verifier::allow_in_spec]
pub fn is_near(candidate: Point, point: Point, width: Double, height: Double) -> bool
    returns
        ({
            let dx = (candidate.x - point.x) / width;
            let dy = (candidate.y - point.y) / height;
            (dx * dx + dy * dy).less(Double::ratio(25, 1_000_000))
        }),
{
    let dx = (candidate.x - point.x) / width;
    let dy = (candidate.y - point.y) / height;
    (dx * dx + dy * dy).less(Double::ratio(25, 1_000_000))
}

/// Whether one of some points is as good as another point.
pub open spec fn has_near(points: Seq<Point>, point: Point, width: Double, height: Double) -> bool {
    exists|i: int| 0 <= i < points.len() && is_near(#[trigger] points[i], point, width, height)
}

/// The first `k` points without those that are as good as an earlier one.
pub open spec fn distinct(points: Seq<Point>, width: Double, height: Double, k: int) -> Seq<Point>
    decreases k,
{
    if k <= 0 {
        Seq::empty()
    } else {
        let before = distinct(points, width, height, k - 1);
        if has_near(before, points[k - 1], width, height) {
            before
        } else {
            before.push(points[k - 1])
        }
    }
}

/// Points without those that are as good as an earlier one.
pub open spec fn deduplicated(points: Seq<Point>, width: Double, height: Double) -> Seq<Point> {
    distinct(points, width, height, points.len() as int)
}

/// What is left has no two points that are as good as one.
pub proof fn law_vertices_are_apart(
    points: Seq<Point>,
    width: Double,
    height: Double,
    i: int,
    j: int,
)
    requires
        0 <= i < j < deduplicated(points, width, height).len(),
    ensures
        !is_near(
            deduplicated(points, width, height)[i],
            deduplicated(points, width, height)[j],
            width,
            height,
        ),
{
    lemma_distinct_apart(points, width, height, points.len() as int, i, j);
}

proof fn lemma_distinct_apart(
    points: Seq<Point>,
    width: Double,
    height: Double,
    k: int,
    i: int,
    j: int,
)
    requires
        0 <= i < j < distinct(points, width, height, k).len(),
    ensures
        !is_near(
            distinct(points, width, height, k)[i],
            distinct(points, width, height, k)[j],
            width,
            height,
        ),
    decreases k,
{
    if k > 0 {
        let before = distinct(points, width, height, k - 1);
        if j < before.len() {
            lemma_distinct_apart(points, width, height, k - 1, i, j);
        } else {
            assert(before[i] == distinct(points, width, height, k)[i]);
        }
    }
}

fn find_near(points: &Vec<Point>, point: Point, width: Double, height: Double) -> (r: bool)
    ensures
        r == has_near(points@, point, width, height),
{
    let mut i: usize = 0;
    while i < points.len()
        invariant
            i <= points.len(),
            forall|k: int| 0 <= k < i ==> !is_near(#[trigger] points[k], point, width, height),
        decreases points.len() - i,
    {
        if is_near(points[i], point, width, height) {
            assert(is_near(points@[i as int], point, width, height));
            return true;
        }
        i += 1;
    }
    false
}

pub fn deduplicate_mesh_vertices(vertices: &mut Vec<Point>, width: Double, height: Double)
    ensures
        final(vertices)@ == deduplicated(old(vertices)@, width, height),
        final(vertices).len() <= old(vertices).len(),
{
    let mut unique: Vec<Point> = Vec::new();
    let mut i: usize = 0;
    while i < vertices.len()
        invariant
            i <= vertices.len(),
            vertices@ == old(vertices)@,
            unique@ == distinct(vertices@, width, height, i as int),
            unique.len() <= i,
        decreases vertices.len() - i,
    {
        if !find_near(&unique, vertices[i], width, height) {
            unique.push(vertices[i]);
        }
        i += 1;
    }
    *vertices = unique;
}

/// Whether a region is of an eye or an eyebrow.
#[verifier::allow_in_spec]
pub fn is_eye_feature(kind: LandmarkKind) -> bool
    returns
        kind == LandmarkKind::LeftEye || kind == LandmarkKind::RightEye || kind
            == LandmarkKind::LeftEyebrow || kind == LandmarkKind::RightEyebrow,
{
    kind == LandmarkKind::LeftEye || kind == LandmarkKind::RightEye || kind
        == LandmarkKind::LeftEyebrow || kind == LandmarkKind::RightEyebrow
}

/// Whether the points of a region are gathered: those of eyes and eyebrows, or all but the list of
/// all points.
#[verifier::allow_in_spec]
fn is_gathered(kind: LandmarkKind, eyes: bool) -> bool
    returns
        (if eyes {
            is_eye_feature(kind)
        } else {
            kind != LandmarkKind::AllPoints
        }),
{
    if eyes {
        is_eye_feature(kind)
    } else {
        kind != LandmarkKind::AllPoints
    }
}

/// The points of the first `k` regions that are eyes or eyebrows, or of those that are not the
/// list of all points.
pub open spec fn gathered(landmarks: Seq<RegionView>, eyes: bool, k: int) -> Seq<Point>
    decreases k,
{
    if k <= 0 {
        Seq::empty()
    } else {
        let before = gathered(landmarks, eyes, k - 1);
        let kind = landmarks[k - 1].kind;
        if (eyes && is_eye_feature(kind)) || (!eyes && kind != LandmarkKind::AllPoints) {
            before + landmarks[k - 1].points
        } else {
            before
        }
    }
}

/// The points of eyes and eyebrows.
pub open spec fn eye_points(face: FaceView) -> Seq<Point> {
    gathered(face.landmarks, true, face.landmarks.len() as int)
}

pub(crate) fn gather(landmarks: &Vec<LandmarkRegion>, eyes: bool) -> (r: Vec<Point>)
    ensures
        r@ == gathered(model::views(landmarks@), eyes, landmarks.len() as int),
{
    let ghost views = model::views(landmarks@);
    let mut points: Vec<Point> = Vec::new();
    let mut i: usize = 0;
    while i < landmarks.len()
        invariant
            i <= landmarks.len(),
            views == model::views(landmarks@),
            points@ == gathered(views, eyes, i as int),
        decreases landmarks.len() - i,
    {
        assert(views[i as int] == landmarks[i as int]@);
        if is_gathered(landmarks[i].kind, eyes) {
            let mut more = landmarks[i].points.clone();
            assert(more@ =~= landmarks[i as int].points@);
            points.append(&mut more);
        }
        i += 1;
    }
    points
}

/// The landmarks that the mesh begins with: the list of all points where there is one, all others
/// otherwise, and the points of eyes and eyebrows in any case.
pub open spec fn base_vertices(face: FaceView) -> Seq<Point> {
    (match model::spec_region(face.landmarks, LandmarkKind::AllPoints) {
        Some(points) => points,
        None => gathered(face.landmarks, false, face.landmarks.len() as int),
    }) + eye_points(face)
}

pub(crate) fn collect_vertices(face: &FaceGeometry) -> (r: Vec<Point>)
    ensures
        r@ == base_vertices(face@),
{
    let mut vertices = match region(&face.landmarks, LandmarkKind::AllPoints) {
        Some(points) => {
            let copy = points.clone();
            assert(copy@ =~= points@);
            copy
        },
        None => gather(&face.landmarks, false),
    };
    let mut eyes = gather(&face.landmarks, true);
    vertices.append(&mut eyes);
    vertices
}

/// The directions of a face: where its eyes are, and what is right and up of them.
#[derive(Clone, Copy, Debug, PartialEq, Eq, Structural)]
pub struct Axes {
    pub origin: Point,
    pub horizontal: Point,
    pub vertical: Point,
}

/// The direction from one eye to the other, and the one that is upwards of it.
pub open spec fn spec_eye_axes(left: Point, right: Point) -> Option<Axes> {
    let across = Point { x: right.x - left.x, y: right.y - left.y };
    let length = across.x.hypot(across.y);
    let horizontal = Point { x: across.x / length, y: across.y / length };
    let normal = Point { x: horizontal.y.negated(), y: horizontal.x };
    if length.at_most(epsilon()) {
        None
    } else {
        Some(
            Axes {
                origin: Point { x: half(left.x + right.x), y: half(left.y + right.y) },
                horizontal,
                vertical: if normal.y.less(Double::integer(0)) {
                    Point { x: normal.x.negated(), y: normal.y.negated() }
                } else {
                    normal
                },
            },
        )
    }
}

fn eye_axes(left: Point, right: Point) -> (r: Option<Axes>)
    ensures
        r == spec_eye_axes(left, right),
{
    let across = Point { x: right.x - left.x, y: right.y - left.y };
    let length = across.x.hypot(across.y);
    if length.at_most(epsilon()) {
        return None;
    }
    let horizontal = Point { x: across.x / length, y: across.y / length };
    let mut vertical = Point { x: horizontal.y.negated(), y: horizontal.x };
    if vertical.y.less(Double::integer(0)) {
        vertical = Point { x: vertical.x.negated(), y: vertical.y.negated() };
    }
    Some(
        Axes {
            origin: Point { x: half(left.x + right.x), y: half(left.y + right.y) },
            horizontal,
            vertical,
        },
    )
}

/// The directions of a face: those of its box where it has no eyes, and none where both eyes are
/// in one place.
pub open spec fn spec_face_axes(face: FaceView) -> Option<Axes> {
    let bounds = face.bounding_box;
    match (
        model::spec_region_center(face.landmarks, LandmarkKind::LeftEye),
        model::spec_region_center(face.landmarks, LandmarkKind::RightEye),
    ) {
        (Some(left), Some(right)) => spec_eye_axes(left, right),
        _ => Some(
            Axes {
                origin: Point {
                    x: bounds.x + half(bounds.width),
                    y: bounds.y + bounds.height * Double::ratio(58, 100),
                },
                horizontal: Point { x: Double::integer(1), y: Double::integer(0) },
                vertical: Point { x: Double::integer(0), y: Double::integer(1) },
            },
        ),
    }
}

fn face_axes(face: &FaceGeometry) -> (r: Option<Axes>)
    ensures
        r == spec_face_axes(face@),
{
    let bounds = face.bounding_box;
    match (
        region_center(&face.landmarks, LandmarkKind::LeftEye),
        region_center(&face.landmarks, LandmarkKind::RightEye),
    ) {
        (Some(left), Some(right)) => eye_axes(left, right),
        _ => Some(
            Axes {
                origin: Point {
                    x: bounds.x + half(bounds.width),
                    y: bounds.y + bounds.height * Double::ratio(58, 100),
                },
                horizontal: Point { x: Double::integer(1), y: Double::integer(0) },
                vertical: Point { x: Double::integer(0), y: Double::integer(1) },
            },
        ),
    }
}

/// How far a point is from another in a direction.
#[verifier::allow_in_spec]
pub fn projection(point: Point, origin: Point, direction: Point) -> Double
    returns
        (point.x - origin.x) * direction.x + (point.y - origin.y) * direction.y,
{
    (point.x - origin.x) * direction.x + (point.y - origin.y) * direction.y
}

/// The least height of the first `k` points.
pub open spec fn least_height(points: Seq<Point>, axes: Axes, k: int) -> Option<Double>
    decreases k,
{
    if k <= 0 {
        None
    } else {
        let height = projection(points[k - 1], axes.origin, axes.vertical);
        match least_height(points, axes, k - 1) {
            Some(least) => Some(least.min(height)),
            None => Some(height),
        }
    }
}

/// How far the chin is below the eyes: half the height of the box where the contour does not say.
pub open spec fn spec_eye_to_chin(contour: Seq<Point>, axes: Axes, height: Double) -> Double {
    match least_height(contour, axes, contour.len() as int) {
        Some(least) => if least.less(Double::integer(0)) {
            least.negated()
        } else {
            half(height)
        },
        None => half(height),
    }
}

fn eye_to_chin(contour: &Vec<Point>, axes: Axes, height: Double) -> (r: Double)
    ensures
        r == spec_eye_to_chin(contour@, axes, height),
{
    let mut least: Option<Double> = None;
    let mut i: usize = 0;
    while i < contour.len()
        invariant
            i <= contour.len(),
            least == least_height(contour@, axes, i as int),
        decreases contour.len() - i,
    {
        let next = projection(contour[i], axes.origin, axes.vertical);
        least =
        match least {
            Some(least) => Some(least.min(next)),
            None => Some(next),
        };
        i += 1;
    }
    match least {
        Some(least) => {
            if least.less(Double::integer(0)) {
                least.negated()
            } else {
                half(height)
            }
        },
        None => half(height),
    }
}

/// How far an edge of a box is along one axis: the far edge in a positive direction, the near one
/// in a negative one, and none in no direction.
#[verifier::allow_in_spec]
pub fn edge_distance(origin: Double, direction: Double, near: Double, size: Double) -> Option<Double>
    returns
        (if epsilon().less(direction) {
            Some((near + size - origin) / direction)
        } else if direction.less(epsilon().negated()) {
            Some((near - origin) / direction)
        } else {
            None
        }),
{
    if epsilon().less(direction) {
        Some((near + size - origin) / direction)
    } else if direction.less(epsilon().negated()) {
        Some((near - origin) / direction)
    } else {
        None
    }
}

/// A distance, where it is finite and ahead.
#[verifier::allow_in_spec]
pub fn ahead(distance: Option<Double>) -> Option<Double>
    returns
        (match distance {
            Some(distance) => if distance.is_finite() && Double::integer(0).less(distance) {
                Some(distance)
            } else {
                None
            },
            None => None,
        }),
{
    match distance {
        Some(distance) => {
            if distance.is_finite() && Double::integer(0).less(distance) {
                Some(distance)
            } else {
                None
            }
        },
        None => None,
    }
}

/// How far the edge of a box is in a direction.
pub open spec fn spec_ray_distance(origin: Point, direction: Point, bounds: BoundingBox) -> Option<
    Double,
> {
    match (
        ahead(edge_distance(origin.x, direction.x, bounds.x, bounds.width)),
        ahead(edge_distance(origin.y, direction.y, bounds.y, bounds.height)),
    ) {
        (Some(x), Some(y)) => Some(x.min(y)),
        (Some(x), None) => Some(x),
        (None, y) => y,
    }
}

pub fn ray_distance_to_bounds(origin: Point, direction: Point, bounds: BoundingBox) -> (r: Option<
    Double,
>)
    ensures
        r == spec_ray_distance(origin, direction, bounds),
{
    match (
        ahead(edge_distance(origin.x, direction.x, bounds.x, bounds.width)),
        ahead(edge_distance(origin.y, direction.y, bounds.y, bounds.height)),
    ) {
        (Some(x), Some(y)) => Some(x.min(y)),
        (Some(x), None) => Some(x),
        (None, y) => y,
    }
}

/// How far the forehead reaches to both sides of the eyes.
#[derive(Clone, Copy, Debug, PartialEq, Eq, Structural)]
pub struct Extent {
    pub left: Double,
    pub right: Double,
}

/// Whether an extent is finite and wider than nothing.
#[verifier::allow_in_spec]
pub fn is_wide(extent: Extent) -> bool
    returns
        extent.left.is_finite() && extent.right.is_finite() && epsilon().less(
            extent.right - extent.left,
        ),
{
    extent.left.is_finite() && extent.right.is_finite() && epsilon().less(
        extent.right - extent.left,
    )
}

/// From temple to temple, which are the ends of the contour: nearly as wide as the box where they
/// are not known.
pub open spec fn spec_extent(contour: Seq<Point>, axes: Axes, width: Double) -> Extent {
    let first = projection(contour[0], axes.origin, axes.horizontal);
    let last = projection(contour[contour.len() - 1], axes.origin, axes.horizontal);
    let temples = Extent { left: first.min(last), right: first.max(last) };
    if contour.len() > 0 && is_wide(temples) {
        temples
    } else {
        Extent {
            left: width.negated() * Double::ratio(45, 100),
            right: width * Double::ratio(45, 100),
        }
    }
}

fn extent(contour: &Vec<Point>, axes: Axes, width: Double) -> (r: Extent)
    ensures
        r == spec_extent(contour@, axes, width),
{
    if contour.len() > 0 {
        let first = projection(contour[0], axes.origin, axes.horizontal);
        let last = projection(contour[contour.len() - 1], axes.origin, axes.horizontal);
        let temples = Extent { left: first.min(last), right: first.max(last) };
        if is_wide(temples) {
            return temples;
        }
    }
    Extent {
        left: width.negated() * Double::ratio(45, 100),
        right: width * Double::ratio(45, 100),
    }
}

/// A row of the forehead: how high and how wide it is, and how many points it has.
#[derive(Clone, Copy, Debug, PartialEq, Eq, Structural)]
pub struct Row {
    pub height: Double,
    pub width: Double,
    pub columns: u64,
}

/// The rows of the forehead, from the brows up.
#[verifier::allow_in_spec]
pub fn forehead_row(index: u64) -> Row
    returns
        (match index {
            0 => Row { height: Double::ratio(6, 100), width: Double::ratio(98, 100), columns: 11 },
            1 => Row { height: Double::ratio(27, 100), width: Double::ratio(92, 100), columns: 11 },
            2 => Row { height: Double::ratio(48, 100), width: Double::ratio(83, 100), columns: 10 },
            3 => Row { height: Double::ratio(69, 100), width: Double::ratio(71, 100), columns: 9 },
            _ => Row { height: Double::ratio(90, 100), width: Double::ratio(57, 100), columns: 7 },
        }),
{
    match index {
        0 => Row { height: Double::ratio(6, 100), width: Double::ratio(98, 100), columns: 11 },
        1 => Row { height: Double::ratio(27, 100), width: Double::ratio(92, 100), columns: 11 },
        2 => Row { height: Double::ratio(48, 100), width: Double::ratio(83, 100), columns: 10 },
        3 => Row { height: Double::ratio(69, 100), width: Double::ratio(71, 100), columns: 9 },
        _ => Row { height: Double::ratio(90, 100), width: Double::ratio(57, 100), columns: 7 },
    }
}

/// A point of a row of the forehead.
pub open spec fn spec_forehead_point(
    axes: Axes,
    extent: Extent,
    space: Double,
    row: Row,
    column: u64,
) -> Point {
    let middle = half(extent.left + extent.right);
    let left = middle + (extent.left - middle) * row.width;
    let right = middle + (extent.right - middle) * row.width;
    let across = left + (right - left) * Double::integer(column) / Double::integer(
        (row.columns - 1) as u64,
    );
    Point {
        x: axes.origin.x + axes.horizontal.x * across + axes.vertical.x * space * row.height,
        y: axes.origin.y + axes.horizontal.y * across + axes.vertical.y * space * row.height,
    }
}

fn forehead_point(axes: Axes, extent: Extent, space: Double, row: Row, column: u64) -> (r: Point)
    requires
        row.columns > 0,
    ensures
        r == spec_forehead_point(axes, extent, space, row, column),
{
    let middle = half(extent.left + extent.right);
    let left = middle + (extent.left - middle) * row.width;
    let right = middle + (extent.right - middle) * row.width;
    let across = left + (right - left) * Double::integer(column) / Double::integer(
        row.columns - 1,
    );
    Point {
        x: axes.origin.x + axes.horizontal.x * across + axes.vertical.x * space * row.height,
        y: axes.origin.y + axes.horizontal.y * across + axes.vertical.y * space * row.height,
    }
}

/// The points of one row of the forehead.
pub open spec fn row_points(axes: Axes, extent: Extent, space: Double, index: u64) -> Seq<Point> {
    let row = forehead_row(index);
    Seq::new(
        row.columns as nat,
        |column: int| spec_forehead_point(axes, extent, space, row, column as u64),
    )
}

/// The points of the first `k` rows of the forehead.
pub open spec fn rows_points(axes: Axes, extent: Extent, space: Double, k: int) -> Seq<Point>
    decreases k,
{
    if k <= 0 {
        Seq::empty()
    } else {
        rows_points(axes, extent, space, k - 1) + row_points(axes, extent, space, (k - 1) as u64)
    }
}

/// The contour of a face, empty where there is none.
pub open spec fn contour_of(face: FaceView) -> Seq<Point> {
    match model::spec_region(face.landmarks, LandmarkKind::FaceContour) {
        Some(points) => points,
        None => Seq::empty(),
    }
}

/// Whether the limits of the height of a forehead are in order: they are not where the height of
/// the box is negative or no number.
#[verifier::allow_in_spec]
pub fn is_measurable(bounds: BoundingBox) -> bool
    returns
        (bounds.height * Double::ratio(18, 100)).at_most(bounds.height * Double::ratio(38, 100)),
{
    (bounds.height * Double::ratio(18, 100)).at_most(bounds.height * Double::ratio(38, 100))
}

/// How high the forehead is: a part of the distance from the eyes to the chin, within limits set
/// by the height of the box.
#[verifier::allow_in_spec]
pub fn forehead_height(chin: Double, height: Double) -> Double
    requires
        (height * Double::ratio(18, 100)).at_most(height * Double::ratio(38, 100)),
    returns
        (chin * Double::ratio(62, 100)).clamp(
            height * Double::ratio(18, 100),
            height * Double::ratio(38, 100),
        ),
{
    (chin * Double::ratio(62, 100)).clamp(
        height * Double::ratio(18, 100),
        height * Double::ratio(38, 100),
    )
}

/// The points of the forehead: five rows, none where the directions of the face are not known or
/// the box has no space above the eyes.
pub open spec fn forehead(face: FaceView) -> Seq<Point> {
    let bounds = face.bounding_box;
    let contour = contour_of(face);
    match spec_face_axes(face) {
        Some(axes) => match spec_ray_distance(axes.origin, axes.vertical, bounds) {
            Some(ray) => rows_points(
                axes,
                spec_extent(contour, axes, bounds.width),
                ray.min(
                    forehead_height(
                        spec_eye_to_chin(contour, axes, bounds.height),
                        bounds.height,
                    ),
                ),
                5,
            ),
            None => Seq::empty(),
        },
        None => Seq::empty(),
    }
}

fn add_row(vertices: &mut Vec<Point>, axes: Axes, extent: Extent, space: Double, index: u64)
    ensures
        final(vertices)@ == old(vertices)@ + row_points(axes, extent, space, index),
{
    let row = forehead_row(index);
    let ghost points = row_points(axes, extent, space, index);
    let ghost before = vertices@;
    let mut column: u64 = 0;
    assert(vertices@ =~= before + points.take(0));
    while column < row.columns
        invariant
            row == forehead_row(index),
            points == row_points(axes, extent, space, index),
            column <= row.columns,
            row.columns > 0,
            vertices@ == before + points.take(column as int),
        decreases row.columns - column,
    {
        vertices.push(forehead_point(axes, extent, space, row, column));
        assert(vertices@ =~= before + points.take(column + 1));
        column += 1;
    }
    assert(points.take(column as int) =~= points);
}

/// Adds the points of the forehead.
pub fn add_forehead_mesh_vertices(face: &FaceGeometry, vertices: &mut Vec<Point>)
    requires
        is_measurable(face.bounding_box),
    ensures
        final(vertices)@ == old(vertices)@ + forehead(face@),
{
    let bounds = face.bounding_box;
    let ghost before = vertices@;
    assert(before + Seq::<Point>::empty() =~= before);
    let axes = match face_axes(face) {
        Some(axes) => axes,
        None => {
            return;
        },
    };
    let ray = match ray_distance_to_bounds(axes.origin, axes.vertical, bounds) {
        Some(ray) => ray,
        None => {
            return;
        },
    };
    let contour = match region(&face.landmarks, LandmarkKind::FaceContour) {
        Some(points) => {
            let copy = points.clone();
            assert(copy@ =~= points@);
            copy
        },
        None => Vec::new(),
    };
    assert(contour@ =~= contour_of(face@));
    let chin = eye_to_chin(&contour, axes, bounds.height);
    let space = ray.min(forehead_height(chin, bounds.height));
    let reach = extent(&contour, axes, bounds.width);
    let mut index: u64 = 0;
    while index < 5
        invariant
            index <= 5,
            vertices@ == before + rows_points(axes, reach, space, index as int),
        decreases 5 - index,
    {
        add_row(vertices, axes, reach, space, index);
        assert(vertices@ =~= before + rows_points(axes, reach, space, index + 1));
        index += 1;
    }
}

/// The forehead has forty-eight points at most.
pub(crate) proof fn lemma_forehead_count(face: FaceView)
    ensures
        forehead(face).len() <= 48,
{
    if let Some(axes) = spec_face_axes(face) {
        let bounds = face.bounding_box;
        if let Some(ray) = spec_ray_distance(axes.origin, axes.vertical, bounds) {
            let contour = contour_of(face);
            let extent = spec_extent(contour, axes, bounds.width);
            let space = ray.min(
                forehead_height(spec_eye_to_chin(contour, axes, bounds.height), bounds.height),
            );
            reveal_with_fuel(rows_points, 6);
        }
    }
}

} // verus!
