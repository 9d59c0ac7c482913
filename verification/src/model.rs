//! Portable face and geometry data types.

use vstd::prelude::*;
use crate::double::Double;
use crate::single::Single;

verus! {

#[derive(Clone, Copy, Debug, PartialEq, Eq, Structural)]
pub struct Point {
    pub x: Double,
    pub y: Double,
}

impl Point {
    #[verifier::allow_in_spec]
    pub fn distance(self, other: Self) -> Double
        returns
            (self.x - other.x).hypot(self.y - other.y),
    {
        (self.x - other.x).hypot(self.y - other.y)
    }

    /// The origin.
    #[verifier::allow_in_spec]
    pub fn zero() -> Point
        returns
            (Point { x: Double::integer(0), y: Double::integer(0) }),
    {
        Point { x: Double::integer(0), y: Double::integer(0) }
    }

    /// The point moved by `offset`.
    #[verifier::allow_in_spec]
    pub fn plus(self, offset: Point) -> Point
        returns
            (Point { x: self.x + offset.x, y: self.y + offset.y }),
    {
        Point { x: self.x + offset.x, y: self.y + offset.y }
    }
}

#[derive(Clone, Copy, Debug, PartialEq, Eq, Structural)]
pub struct BoundingBox {
    pub x: Double,
    pub y: Double,
    pub width: Double,
    pub height: Double,
}

#[derive(Clone, Copy, Debug, PartialEq, Eq, Structural)]
pub enum CoordinateSystem {
    /// Coordinates are in `[0, 1]`, with `(0, 0)` at the image's lower-left.
    NormalizedLowerLeft,
}

#[derive(Clone, Copy, Debug, PartialEq, Eq, Structural)]
pub enum LandmarkKind {
    AllPoints,
    FaceContour,
    LeftEye,
    RightEye,
    LeftEyebrow,
    RightEyebrow,
    Nose,
    NoseCrest,
    MedianLine,
    OuterLips,
    InnerLips,
    LeftPupil,
    RightPupil,
}

#[derive(Debug, PartialEq, Eq)]
pub struct LandmarkRegion {
    pub kind: LandmarkKind,
    /// Points in full-image normalized coordinates.
    pub points: Vec<Point>,
}

/// The content of a landmark region.
#[verifier::ext_equal]
pub struct RegionView {
    pub kind: LandmarkKind,
    pub points: Seq<Point>,
}

impl View for LandmarkRegion {
    type V = RegionView;

    open spec fn view(&self) -> RegionView {
        RegionView { kind: self.kind, points: self.points@ }
    }
}

impl Clone for LandmarkRegion {
    fn clone(&self) -> (r: Self)
        ensures
            r@ == self@,
    {
        let points = self.points.clone();
        assert(points@ =~= self.points@);
        LandmarkRegion { kind: self.kind, points }
    }
}

/// The contents of landmark regions.
pub open spec fn views(regions: Seq<LandmarkRegion>) -> Seq<RegionView> {
    regions.map_values(|region: LandmarkRegion| region@)
}

/// A copy of landmark regions.
pub fn copy_regions(regions: &Vec<LandmarkRegion>) -> (r: Vec<LandmarkRegion>)
    ensures
        views(r@) == views(regions@),
{
    let mut copies: Vec<LandmarkRegion> = Vec::new();
    let mut i: usize = 0;
    while i < regions.len()
        invariant
            i <= regions.len(),
            copies.len() == i,
            forall|k: int| 0 <= k < i ==> (#[trigger] copies[k])@ == regions[k]@,
        decreases regions.len() - i,
    {
        copies.push(regions[i].clone());
        i += 1;
    }
    assert(views(copies@) =~= views(regions@));
    copies
}

#[derive(Clone, Copy, Debug, PartialEq, Eq, Structural)]
pub struct GeometryMeasurements {
    pub face_aspect_ratio: Double,
    pub inter_eye_distance_face_width: Option<Double>,
    pub mouth_width_face_width: Option<Double>,
    pub eye_to_mouth_distance_face_height: Option<Double>,
}

#[derive(Debug, PartialEq, Eq)]
pub struct FaceGeometry {
    pub confidence: Single,
    pub landmark_confidence: Single,
    pub bounding_box: BoundingBox,
    pub roll_radians: Option<Double>,
    pub yaw_radians: Option<Double>,
    pub pitch_radians: Option<Double>,
    pub measurements: GeometryMeasurements,
    pub landmarks: Vec<LandmarkRegion>,
}

/// The content of a face's geometry.
#[verifier::ext_equal]
pub struct FaceView {
    pub confidence: Single,
    pub landmark_confidence: Single,
    pub bounding_box: BoundingBox,
    pub roll_radians: Option<Double>,
    pub yaw_radians: Option<Double>,
    pub pitch_radians: Option<Double>,
    pub measurements: GeometryMeasurements,
    pub landmarks: Seq<RegionView>,
}

impl View for FaceGeometry {
    type V = FaceView;

    open spec fn view(&self) -> FaceView {
        FaceView {
            confidence: self.confidence,
            landmark_confidence: self.landmark_confidence,
            bounding_box: self.bounding_box,
            roll_radians: self.roll_radians,
            yaw_radians: self.yaw_radians,
            pitch_radians: self.pitch_radians,
            measurements: self.measurements,
            landmarks: views(self.landmarks@),
        }
    }
}

impl Clone for FaceGeometry {
    fn clone(&self) -> (r: Self)
        ensures
            r@ == self@,
    {
        FaceGeometry {
            confidence: self.confidence,
            landmark_confidence: self.landmark_confidence,
            bounding_box: self.bounding_box,
            roll_radians: self.roll_radians,
            yaw_radians: self.yaw_radians,
            pitch_radians: self.pitch_radians,
            measurements: self.measurements,
            landmarks: copy_regions(&self.landmarks),
        }
    }
}

impl FaceGeometry {
    /// The proportions of a face with these bounds and landmarks.
    pub open spec fn spec_measurements(
        bounding_box: BoundingBox,
        landmarks: Seq<RegionView>,
    ) -> GeometryMeasurements {
        let left_eye = spec_region_center(landmarks, LandmarkKind::LeftEye);
        let right_eye = spec_region_center(landmarks, LandmarkKind::RightEye);
        let mouth = spec_region_center(landmarks, LandmarkKind::OuterLips);
        GeometryMeasurements {
            face_aspect_ratio: match safe_ratio(bounding_box.height, bounding_box.width) {
                Some(ratio) => ratio,
                None => Double::integer(0),
            },
            inter_eye_distance_face_width: match (left_eye, right_eye) {
                (Some(left), Some(right)) => safe_ratio(left.distance(right), bounding_box.width),
                _ => None,
            },
            mouth_width_face_width: match spec_region_diameter(landmarks, LandmarkKind::OuterLips) {
                Some(width) => safe_ratio(width, bounding_box.width),
                None => None,
            },
            eye_to_mouth_distance_face_height: match (left_eye, right_eye, mouth) {
                (Some(left), Some(right), Some(mouth)) => safe_ratio(
                    midpoint(left, right).distance(mouth),
                    bounding_box.height,
                ),
                _ => None,
            },
        }
    }

    pub fn calculate_measurements(
        bounding_box: BoundingBox,
        landmarks: &Vec<LandmarkRegion>,
    ) -> (r: GeometryMeasurements)
        ensures
            r == Self::spec_measurements(bounding_box, views(landmarks@)),
    {
        let left_eye = region_center(landmarks, LandmarkKind::LeftEye);
        let right_eye = region_center(landmarks, LandmarkKind::RightEye);
        let mouth = region_center(landmarks, LandmarkKind::OuterLips);
        let face_aspect_ratio = match safe_ratio(bounding_box.height, bounding_box.width) {
            Some(ratio) => ratio,
            None => Double::integer(0),
        };
        let inter_eye_distance_face_width = match (left_eye, right_eye) {
            (Some(left), Some(right)) => safe_ratio(left.distance(right), bounding_box.width),
            _ => None,
        };
        let mouth_width_face_width = match region_diameter(landmarks, LandmarkKind::OuterLips) {
            Some(width) => safe_ratio(width, bounding_box.width),
            None => None,
        };
        let eye_to_mouth_distance_face_height = match (left_eye, right_eye, mouth) {
            (Some(left), Some(right), Some(mouth)) => safe_ratio(
                midpoint(left, right).distance(mouth),
                bounding_box.height,
            ),
            _ => None,
        };
        GeometryMeasurements {
            face_aspect_ratio,
            inter_eye_distance_face_width,
            mouth_width_face_width,
            eye_to_mouth_distance_face_height,
        }
    }
}

/// The faces that a detector found in one image.
#[derive(Clone, Debug, PartialEq, Eq)]
pub struct Detection {
    pub backend: &'static str,
    pub coordinate_system: CoordinateSystem,
    pub faces: Vec<FaceGeometry>,
}

/// The point halfway between two.
#[verifier::allow_in_spec]
pub fn midpoint(left: Point, right: Point) -> Point
    returns
        (Point {
            x: (left.x + right.x) / Double::integer(2),
            y: (left.y + right.y) / Double::integer(2),
        }),
{
    Point {
        x: (left.x + right.x) / Double::integer(2),
        y: (left.y + right.y) / Double::integer(2),
    }
}

/// The points of the first region of a kind at or after position `from`.
pub open spec fn region_from(landmarks: Seq<RegionView>, kind: LandmarkKind, from: int) -> Option<
    Seq<Point>,
>
    decreases landmarks.len() - from,
{
    if from < 0 || from >= landmarks.len() {
        None
    } else if landmarks[from].kind == kind {
        Some(landmarks[from].points)
    } else {
        region_from(landmarks, kind, from + 1)
    }
}

/// The points of the first region of a kind.
pub open spec fn spec_region(landmarks: Seq<RegionView>, kind: LandmarkKind) -> Option<Seq<Point>> {
    region_from(landmarks, kind, 0)
}

/// The first region of a kind is the one that counts, and there is none only where no region has
/// the kind.
pub proof fn law_first_region_counts(landmarks: Seq<RegionView>, kind: LandmarkKind)
    ensures
        match spec_region(landmarks, kind) {
            Some(points) => exists|i: int|
                0 <= i < landmarks.len() && (#[trigger] landmarks[i]).kind == kind
                    && landmarks[i].points == points && forall|j: int|
                    0 <= j < i ==> (#[trigger] landmarks[j]).kind != kind,
            None => forall|j: int|
                0 <= j < landmarks.len() ==> (#[trigger] landmarks[j]).kind != kind,
        },
{
    lemma_region_from(landmarks, kind, 0);
}

proof fn lemma_region_from(landmarks: Seq<RegionView>, kind: LandmarkKind, from: int)
    requires
        0 <= from,
        forall|j: int| 0 <= j < from && j < landmarks.len() ==> (#[trigger] landmarks[j]).kind != kind,
    ensures
        match region_from(landmarks, kind, from) {
            Some(points) => exists|i: int|
                0 <= i < landmarks.len() && (#[trigger] landmarks[i]).kind == kind
                    && landmarks[i].points == points && forall|j: int|
                    0 <= j < i ==> (#[trigger] landmarks[j]).kind != kind,
            None => forall|j: int|
                0 <= j < landmarks.len() ==> (#[trigger] landmarks[j]).kind != kind,
        },
    decreases landmarks.len() - from,
{
    if from < landmarks.len() && landmarks[from].kind != kind {
        lemma_region_from(landmarks, kind, from + 1);
    }
}

/// The points of the first region of a kind.
pub fn region<'a>(landmarks: &'a Vec<LandmarkRegion>, kind: LandmarkKind) -> (r: Option<
    &'a Vec<Point>,
>)
    ensures
        match r {
            Some(points) => spec_region(views(landmarks@), kind) == Some(points@),
            None => spec_region(views(landmarks@), kind) is None,
        },
{
    let mut i: usize = 0;
    while i < landmarks.len()
        invariant
            i <= landmarks.len(),
            spec_region(views(landmarks@), kind) == region_from(
                views(landmarks@),
                kind,
                i as int,
            ),
        decreases landmarks.len() - i,
    {
        assert(views(landmarks@)[i as int] == landmarks[i as int]@);
        if landmarks[i].kind == kind {
            return Some(&landmarks[i].points);
        }
        i += 1;
    }
    None
}

/// The sum of the first `k` points, added up from the first on.
pub open spec fn point_sum(points: Seq<Point>, k: int) -> Point
    decreases k,
{
    if k <= 0 {
        Point::zero()
    } else {
        point_sum(points, k - 1).plus(points[k - 1])
    }
}

/// The mean of points.
pub open spec fn spec_mean(points: Seq<Point>) -> Option<Point> {
    if points.len() == 0 {
        None
    } else {
        let sum = point_sum(points, points.len() as int);
        let count = Double::integer(points.len() as u64);
        Some(Point { x: sum.x / count, y: sum.y / count })
    }
}

/// The mean of points: nothing where there are none.
pub fn mean(points: &Vec<Point>) -> (r: Option<Point>)
    ensures
        r == spec_mean(points@),
{
    if points.len() == 0 {
        return None;
    }
    let mut sum = Point::zero();
    let mut i: usize = 0;
    while i < points.len()
        invariant
            i <= points.len(),
            sum == point_sum(points@, i as int),
        decreases points.len() - i,
    {
        sum = sum.plus(points[i]);
        i += 1;
    }
    let count = Double::integer(points.len() as u64);
    Some(Point { x: sum.x / count, y: sum.y / count })
}

/// The mean of the points of a kind.
pub open spec fn spec_region_center(landmarks: Seq<RegionView>, kind: LandmarkKind) -> Option<
    Point,
> {
    match spec_region(landmarks, kind) {
        Some(points) => spec_mean(points),
        None => None,
    }
}

/// The mean of the points of a kind.
pub fn region_center(landmarks: &Vec<LandmarkRegion>, kind: LandmarkKind) -> (r: Option<Point>)
    ensures
        r == spec_region_center(views(landmarks@), kind),
{
    match region(landmarks, kind) {
        Some(points) => mean(points),
        None => None,
    }
}

/// The nose, by its crest where it is not landmarked itself.
pub open spec fn spec_nose(landmarks: Seq<RegionView>) -> Option<Point> {
    match spec_region_center(landmarks, LandmarkKind::Nose) {
        Some(nose) => Some(nose),
        None => spec_region_center(landmarks, LandmarkKind::NoseCrest),
    }
}

/// The nose, by its crest where it is not landmarked itself.
pub fn nose(landmarks: &Vec<LandmarkRegion>) -> (r: Option<Point>)
    ensures
        r == spec_nose(views(landmarks@)),
{
    match region_center(landmarks, LandmarkKind::Nose) {
        Some(nose) => Some(nose),
        None => region_center(landmarks, LandmarkKind::NoseCrest),
    }
}

/// The greater of the best so far and one more.
#[verifier::allow_in_spec]
pub fn greatest(best: Option<Double>, candidate: Double) -> Option<Double>
    returns
        (match best {
            Some(best) => Some(best.max(candidate)),
            None => Some(candidate),
        }),
{
    match best {
        Some(best) => Some(best.max(candidate)),
        None => Some(candidate),
    }
}

/// The greatest distance of two points, of the pairs of which the first is before `i`, or is `i`
/// and the second is before `j`.
pub open spec fn widest(points: Seq<Point>, i: int, j: int) -> Option<Double>
    decreases i + 1, j,
{
    if i < 0 {
        None
    } else if j <= i + 1 {
        widest(points, i - 1, points.len() as int)
    } else {
        greatest(widest(points, i, j - 1), points[i].distance(points[j - 1]))
    }
}

/// The greatest distance of two points of a kind.
pub open spec fn spec_region_diameter(landmarks: Seq<RegionView>, kind: LandmarkKind) -> Option<
    Double,
> {
    match spec_region(landmarks, kind) {
        Some(points) => widest(points, points.len() - 1, points.len() as int),
        None => None,
    }
}

/// The greatest distance of two points of a kind: nothing where there are fewer than two.
pub fn region_diameter(landmarks: &Vec<LandmarkRegion>, kind: LandmarkKind) -> (r: Option<Double>)
    ensures
        r == spec_region_diameter(views(landmarks@), kind),
{
    let points = match region(landmarks, kind) {
        Some(points) => points,
        None => {
            return None;
        },
    };
    let n: usize = points.len();
    let mut best: Option<Double> = None;
    let mut i: usize = 0;
    while i < n
        invariant
            n == points.len(),
            i <= n,
            best == widest(points@, i - 1, n as int),
        decreases n - i,
    {
        let mut j: usize = i + 1;
        while j < n
            invariant
                n == points.len(),
                i < n,
                i + 1 <= j <= n,
                best == widest(points@, i as int, j as int),
            decreases n - j,
        {
            best = greatest(best, points[i].distance(points[j]));
            j += 1;
        }
        i += 1;
    }
    best
}

/// The spacing of doubles above one.
#[verifier::allow_in_spec]
pub fn epsilon() -> Double
    returns
        Double::ratio(1, 4503599627370496),
{
    Double::ratio(1, 4503599627370496)
}

/// A quotient, where the denominator is not next to zero.
#[verifier::allow_in_spec]
pub fn safe_ratio(numerator: Double, denominator: Double) -> Option<Double>
    returns
        (if epsilon().less(denominator.abs()) {
            Some(numerator / denominator)
        } else {
            None
        }),
{
    if epsilon().less(denominator.abs()) {
        Some(numerator / denominator)
    } else {
        None
    }
}

} // verus!
