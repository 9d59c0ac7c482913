//! What a detector backend reports, and the geometry that is made of it.

use vstd::prelude::*;
use vstd::string::*;
use crate::double::Double;
use crate::model;
use crate::model::{
    BoundingBox, CoordinateSystem, Detection, FaceGeometry, FaceView, LandmarkKind, LandmarkRegion,
    Point, RegionView,
};
use crate::single::Single;
use crate::tracker;

verus! {

/// A detector of face geometry.
pub trait FaceGeometryDetector {
    fn name(&self) -> &'static str;

    fn detect_path(&self, image_path: &str) -> Result<Detection, DetectorError>;
}

#[derive(Debug)]
pub enum DetectorError {
    InvalidInput(String),
    Backend(String),
    UnsupportedPlatform,
}

impl DetectorError {
    /// What is shown of the error.
    pub open spec fn spec_message(self) -> Seq<char> {
        match self {
            DetectorError::InvalidInput(message) => "invalid input: "@ + message@,
            DetectorError::Backend(message) => "detector backend failed: "@ + message@,
            DetectorError::UnsupportedPlatform =>
            "no detector backend is available on this platform; the current backend requires macOS"@,
        }
    }

    /// What is shown of the error.
    pub fn message(&self) -> (r: String)
        ensures
            r@ == self.spec_message(),
    {
        match self {
            DetectorError::InvalidInput(message) => "invalid input: ".to_owned().concat(
                message.as_str(),
            ),
            DetectorError::Backend(message) => "detector backend failed: ".to_owned().concat(
                message.as_str(),
            ),
            DetectorError::UnsupportedPlatform =>
            "no detector backend is available on this platform; the current backend requires macOS".to_owned(),
        }
    }
}

/// The name of a landmark kind.
#[verifier::allow_in_spec]
pub fn kind_name(kind: LandmarkKind) -> &'static str
    returns
        (match kind {
            LandmarkKind::AllPoints => "AllPoints",
            LandmarkKind::FaceContour => "FaceContour",
            LandmarkKind::LeftEye => "LeftEye",
            LandmarkKind::RightEye => "RightEye",
            LandmarkKind::LeftEyebrow => "LeftEyebrow",
            LandmarkKind::RightEyebrow => "RightEyebrow",
            LandmarkKind::Nose => "Nose",
            LandmarkKind::NoseCrest => "NoseCrest",
            LandmarkKind::MedianLine => "MedianLine",
            LandmarkKind::OuterLips => "OuterLips",
            LandmarkKind::InnerLips => "InnerLips",
            LandmarkKind::LeftPupil => "LeftPupil",
            LandmarkKind::RightPupil => "RightPupil",
        }),
{
    match kind {
        LandmarkKind::AllPoints => "AllPoints",
        LandmarkKind::FaceContour => "FaceContour",
        LandmarkKind::LeftEye => "LeftEye",
        LandmarkKind::RightEye => "RightEye",
        LandmarkKind::LeftEyebrow => "LeftEyebrow",
        LandmarkKind::RightEyebrow => "RightEyebrow",
        LandmarkKind::Nose => "Nose",
        LandmarkKind::NoseCrest => "NoseCrest",
        LandmarkKind::MedianLine => "MedianLine",
        LandmarkKind::OuterLips => "OuterLips",
        LandmarkKind::InnerLips => "InnerLips",
        LandmarkKind::LeftPupil => "LeftPupil",
        LandmarkKind::RightPupil => "RightPupil",
    }
}

/// A landmark region as the backend reports it, its points by their places in the face's box.
#[derive(Debug)]
pub struct ReportedRegion {
    pub kind: LandmarkKind,
    /// Nothing where the backend has no buffer for the points that it counts.
    pub points: Option<Vec<Point>>,
}

/// A face as the backend reports it.
#[derive(Debug)]
pub struct ReportedFace {
    pub confidence: Single,
    pub landmark_confidence: Single,
    pub bounding_box: BoundingBox,
    pub roll_radians: Option<Double>,
    pub yaw_radians: Option<Double>,
    pub pitch_radians: Option<Double>,
    /// The regions that the backend has, nothing where it has no landmarks at all.
    pub regions: Option<Vec<ReportedRegion>>,
}

/// A point of a box, in the coordinates of the image.
#[verifier::allow_in_spec]
pub fn image_point(point: Point, bounds: BoundingBox) -> Point
    returns
        (Point {
            x: bounds.x + point.x * bounds.width,
            y: bounds.y + point.y * bounds.height,
        }),
{
    Point { x: bounds.x + point.x * bounds.width, y: bounds.y + point.y * bounds.height }
}

/// A region in the coordinates of the image.
pub open spec fn spec_extract_region(region: ReportedRegion, bounds: BoundingBox) -> Result<
    RegionView,
    Seq<char>,
> {
    match region.points {
        Some(points) => Ok(
            RegionView {
                kind: region.kind,
                points: points@.map_values(|point: Point| image_point(point, bounds)),
            },
        ),
        None => Err("Vision returned a null point buffer for "@ + kind_name(region.kind)@),
    }
}

/// What an error says of the backend, and that it is about the backend.
pub open spec fn is_backend(error: DetectorError, message: Seq<char>) -> bool {
    error matches DetectorError::Backend(text) && text@ == message
}

fn extract_region(region: &ReportedRegion, bounds: BoundingBox) -> (r: Result<
    LandmarkRegion,
    DetectorError,
>)
    ensures
        match r {
            Ok(found) => spec_extract_region(*region, bounds) == Ok::<RegionView, Seq<char>>(
                found@,
            ),
            Err(error) => spec_extract_region(*region, bounds) matches Err(message) && is_backend(
                error,
                message,
            ),
        },
{
    match &region.points {
        Some(reported) => {
            let mut points: Vec<Point> = Vec::new();
            let mut i: usize = 0;
            while i < reported.len()
                invariant
                    i <= reported.len(),
                    points.len() == i,
                    forall|k: int|
                        0 <= k < i ==> #[trigger] points[k] == image_point(reported[k], bounds),
                decreases reported.len() - i,
            {
                points.push(image_point(reported[i], bounds));
                i += 1;
            }
            let found = LandmarkRegion { kind: region.kind, points };
            assert(found@.points =~= reported@.map_values(
                |point: Point| image_point(point, bounds),
            ));
            Ok(found)
        },
        None => Err(
            DetectorError::Backend(
                "Vision returned a null point buffer for ".to_owned().concat(
                    kind_name(region.kind),
                ),
            ),
        ),
    }
}

/// The first `k` regions in the coordinates of the image: the first error where there is one.
pub open spec fn spec_extract_regions(
    regions: Seq<ReportedRegion>,
    bounds: BoundingBox,
    k: int,
) -> Result<Seq<RegionView>, Seq<char>>
    decreases k,
{
    if k <= 0 {
        Ok(Seq::empty())
    } else {
        match spec_extract_regions(regions, bounds, k - 1) {
            Err(message) => Err(message),
            Ok(before) => match spec_extract_region(regions[k - 1], bounds) {
                Ok(region) => Ok(before.push(region)),
                Err(message) => Err(message),
            },
        }
    }
}

proof fn lemma_region_error_stays(
    regions: Seq<ReportedRegion>,
    bounds: BoundingBox,
    i: int,
    k: int,
)
    requires
        0 <= i <= k,
        spec_extract_regions(regions, bounds, i) is Err,
    ensures
        spec_extract_regions(regions, bounds, k) == spec_extract_regions(regions, bounds, i),
    decreases k,
{
    if i < k {
        lemma_region_error_stays(regions, bounds, i, k - 1);
    }
}

fn extract_regions(regions: &Vec<ReportedRegion>, bounds: BoundingBox) -> (r: Result<
    Vec<LandmarkRegion>,
    DetectorError,
>)
    ensures
        match r {
            Ok(found) => spec_extract_regions(regions@, bounds, regions.len() as int) == Ok::<
                Seq<RegionView>,
                Seq<char>,
            >(model::views(found@)),
            Err(error) => spec_extract_regions(regions@, bounds, regions.len() as int) matches Err(
                message,
            ) && is_backend(error, message),
        },
{
    let mut found: Vec<LandmarkRegion> = Vec::new();
    let mut i: usize = 0;
    assert(model::views(found@) =~= Seq::empty());
    while i < regions.len()
        invariant
            i <= regions.len(),
            spec_extract_regions(regions@, bounds, i as int) == Ok::<Seq<RegionView>, Seq<char>>(
                model::views(found@),
            ),
        decreases regions.len() - i,
    {
        match extract_region(&regions[i], bounds) {
            Ok(region) => {
                let ghost before = found@;
                found.push(region);
                assert(model::views(found@) =~= model::views(before).push(region@));
            },
            Err(error) => {
                proof {
                    lemma_region_error_stays(regions@, bounds, i + 1, regions.len() as int);
                }
                return Err(error);
            },
        }
        i += 1;
    }
    Ok(found)
}

/// The geometry of a reported face.
pub open spec fn spec_face(face: ReportedFace) -> Result<FaceView, Seq<char>> {
    match face.regions {
        None => Err("face result has no landmarks"@),
        Some(regions) => match spec_extract_regions(
            regions@,
            face.bounding_box,
            regions.len() as int,
        ) {
            Err(message) => Err(message),
            Ok(landmarks) => Ok(
                FaceView {
                    confidence: face.confidence,
                    landmark_confidence: face.landmark_confidence,
                    bounding_box: face.bounding_box,
                    roll_radians: face.roll_radians,
                    yaw_radians: face.yaw_radians,
                    pitch_radians: face.pitch_radians,
                    measurements: FaceGeometry::spec_measurements(face.bounding_box, landmarks),
                    landmarks,
                },
            ),
        },
    }
}

fn face_geometry(face: &ReportedFace) -> (r: Result<FaceGeometry, DetectorError>)
    ensures
        match r {
            Ok(found) => spec_face(*face) == Ok::<FaceView, Seq<char>>(found@),
            Err(error) => spec_face(*face) matches Err(message) && is_backend(error, message),
        },
{
    let regions = match &face.regions {
        Some(regions) => regions,
        None => {
            return Err(DetectorError::Backend("face result has no landmarks".to_owned()));
        },
    };
    match extract_regions(regions, face.bounding_box) {
        Ok(landmarks) => {
            let measurements = FaceGeometry::calculate_measurements(
                face.bounding_box,
                &landmarks,
            );
            Ok(
                FaceGeometry {
                    confidence: face.confidence,
                    landmark_confidence: face.landmark_confidence,
                    bounding_box: face.bounding_box,
                    roll_radians: face.roll_radians,
                    yaw_radians: face.yaw_radians,
                    pitch_radians: face.pitch_radians,
                    measurements,
                    landmarks,
                },
            )
        },
        Err(error) => Err(error),
    }
}

/// The geometry of the first `k` reported faces: the first error where there is one.
pub open spec fn spec_faces(faces: Seq<ReportedFace>, k: int) -> Result<Seq<FaceView>, Seq<char>>
    decreases k,
{
    if k <= 0 {
        Ok(Seq::empty())
    } else {
        match spec_faces(faces, k - 1) {
            Err(message) => Err(message),
            Ok(before) => match spec_face(faces[k - 1]) {
                Ok(face) => Ok(before.push(face)),
                Err(message) => Err(message),
            },
        }
    }
}

proof fn lemma_face_error_stays(faces: Seq<ReportedFace>, i: int, k: int)
    requires
        0 <= i <= k,
        spec_faces(faces, i) is Err,
    ensures
        spec_faces(faces, k) == spec_faces(faces, i),
    decreases k,
{
    if i < k {
        lemma_face_error_stays(faces, i, k - 1);
    }
}

/// The detector that reports what Apple's Vision framework sees.
#[derive(Clone, Copy, Debug, PartialEq, Eq, Structural)]
pub struct AppleVisionDetector;

impl AppleVisionDetector {
    #[verifier::allow_in_spec]
    pub fn name(&self) -> &'static str
        returns
            "apple_vision",
    {
        "apple_vision"
    }

    /// The detection that the results of a request come to: nothing where the framework returned
    /// no results.
    pub fn detection(&self, results: Option<Vec<ReportedFace>>) -> (r: Result<
        Detection,
        DetectorError,
    >)
        ensures
            match results {
                None => r matches Err(error) && is_backend(
                    error,
                    "Vision returned no results array"@,
                ),
                Some(faces) => match spec_faces(faces@, faces.len() as int) {
                    Ok(expected) => r matches Ok(detection) && detection.backend@
                        == "apple_vision"@ && detection.coordinate_system
                        == CoordinateSystem::NormalizedLowerLeft && tracker::face_views(
                        detection.faces@,
                    ) == expected,
                    Err(message) => r matches Err(error) && is_backend(error, message),
                },
            },
    {
        let reported = match results {
            Some(reported) => reported,
            None => {
                return Err(DetectorError::Backend("Vision returned no results array".to_owned()));
            },
        };
        let mut faces: Vec<FaceGeometry> = Vec::new();
        let mut i: usize = 0;
        assert(tracker::face_views(faces@) =~= Seq::empty());
        while i < reported.len()
            invariant
                i <= reported.len(),
                results == Some(reported),
                spec_faces(reported@, i as int) == Ok::<Seq<FaceView>, Seq<char>>(
                    tracker::face_views(faces@),
                ),
            decreases reported.len() - i,
        {
            match face_geometry(&reported[i]) {
                Ok(face) => {
                    let ghost before = faces@;
                    faces.push(face);
                    assert(tracker::face_views(faces@) =~= tracker::face_views(before).push(face@));
                },
                Err(error) => {
                    proof {
                        lemma_face_error_stays(reported@, i + 1, reported.len() as int);
                    }
                    return Err(error);
                },
            }
            i += 1;
        }
        Ok(
            Detection {
                backend: self.name(),
                coordinate_system: CoordinateSystem::NormalizedLowerLeft,
                faces,
            },
        )
    }
}

} // verus!
