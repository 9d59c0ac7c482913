use facefeature::detector::{
    image_point, kind_name, AppleVisionDetector, ReportedFace, ReportedRegion,
};
use facefeature::model::{midpoint, nose, region_center, region_diameter, safe_ratio};
use facefeature::motion::{
    intersection_over_union, landmark_shape_distance, normalized_point, smooth_optional,
};
use facefeature::{
    BoundingBox, CoordinateSystem, DetectorError, Double, FaceGeometry, LandmarkKind,
    LandmarkRegion, Point, Single,
};

fn double(x: f64) -> Double {
    Double::from_bits(x.to_bits())
}

fn single(x: f32) -> Single {
    Single::from_bits(x.to_bits())
}

fn number(x: Double) -> f64 {
    f64::from_bits(x.to_bits())
}

fn point(x: f64, y: f64) -> Point {
    Point { x: double(x), y: double(y) }
}

fn bounds(x: f64, y: f64, width: f64, height: f64) -> BoundingBox {
    BoundingBox { x: double(x), y: double(y), width: double(width), height: double(height) }
}

fn region_with_points(kind: LandmarkKind, points: &[(f64, f64)]) -> LandmarkRegion {
    LandmarkRegion { kind, points: points.iter().map(|&(x, y)| point(x, y)).collect() }
}

#[test]
fn measurements_are_relative_to_the_face_box() {
    let bounds = bounds(0.2, 0.2, 0.4, 0.5);
    let landmarks = vec![
        region_with_points(LandmarkKind::LeftEye, &[(0.3, 0.55)]),
        region_with_points(LandmarkKind::RightEye, &[(0.5, 0.55)]),
        region_with_points(LandmarkKind::OuterLips, &[(0.34, 0.35), (0.46, 0.35)]),
    ];

    let result = FaceGeometry::calculate_measurements(bounds, &landmarks);
    assert!((number(result.face_aspect_ratio) - 1.25).abs() < 1e-12);
    assert!((number(result.inter_eye_distance_face_width.unwrap()) - 0.5).abs() < 1e-12);
    assert!((number(result.mouth_width_face_width.unwrap()) - 0.3).abs() < 1e-12);
    assert!((number(result.eye_to_mouth_distance_face_height.unwrap()) - 0.4).abs() < 1e-12);
}

#[test]
fn measurements_are_missing_where_landmarks_are() {
    let result = FaceGeometry::calculate_measurements(bounds(0.2, 0.2, 0.4, 0.5), &Vec::new());
    assert!(result.inter_eye_distance_face_width.is_none());
    assert!(result.mouth_width_face_width.is_none());
    assert!(result.eye_to_mouth_distance_face_height.is_none());
    let flat = FaceGeometry::calculate_measurements(
        bounds(0.2, 0.2, 0.0, 0.5),
        &vec![
            region_with_points(LandmarkKind::LeftEye, &[(0.3, 0.55)]),
            region_with_points(LandmarkKind::RightEye, &[(0.5, 0.55)]),
        ],
    );
    assert_eq!(flat.face_aspect_ratio, double(0.0));
    assert!(flat.inter_eye_distance_face_width.is_none());
}

#[test]
fn points_have_distances_and_middles() {
    assert_eq!(point(1.0, 2.0).distance(point(4.0, 6.0)), double(5.0));
    assert_eq!(midpoint(point(1.0, 2.0), point(4.0, 6.0)), point(2.5, 4.0));
    let landmarks = vec![region_with_points(
        LandmarkKind::Nose,
        &[(0.0, 0.0), (1.0, 0.5), (0.5, 1.0), (0.5, 0.5)],
    )];
    assert_eq!(region_center(&landmarks, LandmarkKind::Nose), Some(point(0.5, 0.5)));
    assert_eq!(region_center(&landmarks, LandmarkKind::LeftEye), None);
    let widest = region_diameter(&landmarks, LandmarkKind::Nose).unwrap();
    assert!((number(widest) - (1.0f64 + 0.25).sqrt()).abs() < 1e-12);
    assert_eq!(safe_ratio(double(1.0), double(4.0)), Some(double(0.25)));
    assert_eq!(safe_ratio(double(1.0), double(0.0)), None);
}

#[test]
fn overlap_is_the_shared_part_of_the_whole() {
    let left = bounds(0.0, 0.0, 0.5, 0.5);
    assert!((number(intersection_over_union(left, left)) - 1.0).abs() < 1e-12);
    let right = bounds(0.25, 0.0, 0.5, 0.5);
    assert!((number(intersection_over_union(left, right)) - 1.0 / 3.0).abs() < 1e-12);
    let apart = bounds(0.6, 0.6, 0.1, 0.1);
    assert_eq!(intersection_over_union(left, apart), double(0.0));
}

#[test]
fn angles_are_smoothed_where_both_are_known() {
    let alpha = double(0.25);
    assert_eq!(
        smooth_optional(Some(double(1.0)), Some(double(2.0)), alpha),
        Some(double(1.25))
    );
    assert_eq!(smooth_optional(None, Some(double(2.0)), alpha), Some(double(2.0)));
    assert_eq!(smooth_optional(Some(double(1.0)), None, alpha), Some(double(1.0)));
    assert_eq!(smooth_optional(None, None, alpha), None);
}

#[test]
fn shapes_compare_landmarks_by_their_place_in_the_face() {
    assert_eq!(
        normalized_point(point(0.3, 0.45), bounds(0.2, 0.2, 0.4, 0.5)),
        Point {
            x: (double(0.3) - double(0.2)) / double(0.4),
            y: (double(0.45) - double(0.2)) / double(0.5),
        }
    );
    let face = |x: f64| FaceGeometry {
        confidence: single(1.0),
        landmark_confidence: single(1.0),
        bounding_box: bounds(x, 0.2, 0.25, 0.5),
        roll_radians: None,
        yaw_radians: None,
        pitch_radians: None,
        measurements: FaceGeometry::calculate_measurements(bounds(x, 0.2, 0.25, 0.5), &Vec::new()),
        landmarks: vec![region_with_points(LandmarkKind::AllPoints, &[(x + 0.125, 0.45)])],
    };
    let moved = landmark_shape_distance(&face(0.0), &face(0.5)).unwrap();
    assert!(number(moved) < 1e-12);
    let mut other = face(0.5);
    other.landmarks.clear();
    assert!(landmark_shape_distance(&face(0.0), &other).is_none());
}

#[test]
fn reported_faces_become_a_detection() {
    let reported = ReportedFace {
        confidence: single(0.75),
        bounding_box: bounds(0.25, 0.5, 0.5, 0.25),
        roll_radians: Some(double(0.1)),
        yaw_radians: Some(double(-0.2)),
        pitch_radians: None,
        landmark_confidence: single(0.5),
        regions: Some(vec![
            ReportedRegion { kind: LandmarkKind::Nose, points: Some(vec![point(0.5, 0.5)]) },
            ReportedRegion { kind: LandmarkKind::LeftEye, points: Some(Vec::new()) },
        ]),
    };
    let detection = AppleVisionDetector.detection(Some(vec![reported])).unwrap();
    assert_eq!(detection.backend, "apple_vision");
    assert_eq!(detection.coordinate_system, CoordinateSystem::NormalizedLowerLeft);
    assert_eq!(detection.faces.len(), 1);
    let face = &detection.faces[0];
    assert_eq!(face.confidence, single(0.75));
    assert_eq!(face.yaw_radians, Some(double(-0.2)));
    assert_eq!(face.landmarks.len(), 2);
    assert_eq!(face.landmarks[0].kind, LandmarkKind::Nose);
    assert_eq!(face.landmarks[0].points, vec![point(0.5, 0.625)]);
    assert_eq!(
        image_point(point(0.5, 0.5), bounds(0.25, 0.5, 0.5, 0.25)),
        point(0.5, 0.625)
    );
    assert_eq!(AppleVisionDetector.name(), "apple_vision");
}

#[test]
fn detector_errors_say_what_is_wrong() {
    let failure = |results| AppleVisionDetector.detection(results).unwrap_err().message();
    assert_eq!(failure(None), "detector backend failed: Vision returned no results array");
    let reported = |regions| ReportedFace {
        confidence: single(0.75),
        landmark_confidence: single(0.5),
        bounding_box: bounds(0.25, 0.5, 0.5, 0.25),
        roll_radians: None,
        yaw_radians: None,
        pitch_radians: None,
        regions,
    };
    assert_eq!(
        failure(Some(vec![reported(None)])),
        "detector backend failed: face result has no landmarks"
    );
    let broken = ReportedRegion { kind: LandmarkKind::NoseCrest, points: None };
    assert_eq!(
        failure(Some(vec![reported(Some(vec![broken]))])),
        "detector backend failed: Vision returned a null point buffer for NoseCrest"
    );
    assert_eq!(DetectorError::InvalidInput("no file".to_owned()).message(), "invalid input: no file");
    assert_eq!(
        DetectorError::Backend("no model".to_owned()).message(),
        "detector backend failed: no model"
    );
    assert_eq!(
        DetectorError::UnsupportedPlatform.message(),
        "no detector backend is available on this platform; the current backend requires macOS"
    );
    assert_eq!(kind_name(LandmarkKind::FaceContour), "FaceContour");
}

fn some_landmarks(map: impl Fn(f64, f64) -> (f64, f64)) -> Vec<LandmarkRegion> {
    let region = |kind: LandmarkKind, points: &[(f64, f64)]| {
        let moved: Vec<(f64, f64)> = points.iter().map(|&(x, y)| map(x, y)).collect();
        region_with_points(kind, &moved)
    };
    vec![
        region(LandmarkKind::LeftEye, &[(3.0, 5.5), (3.5, 5.25), (4.0, 5.5), (3.5, 5.75)]),
        region(LandmarkKind::RightEye, &[(5.5, 5.5), (6.0, 5.25)]),
        region(LandmarkKind::OuterLips, &[(3.5, 3.0), (4.5, 2.75), (5.75, 3.25), (4.25, 3.5)]),
    ]
}

#[test]
fn measurements_do_not_depend_on_scale() {
    let plain = FaceGeometry::calculate_measurements(
        bounds(2.0, 2.0, 5.0, 6.0),
        &some_landmarks(|x, y| (x / 7.0, y / 7.0)),
    );
    assert!(plain.eye_to_mouth_distance_face_height.is_some());
    for power in [-20, -3, 1, 10, 100] {
        let factor = 2.0f64.powi(power);
        let scaled = FaceGeometry::calculate_measurements(
            bounds(2.0 * factor, 2.0 * factor, 5.0 * factor, 6.0 * factor),
            &some_landmarks(|x, y| (x / 7.0 * factor, y / 7.0 * factor)),
        );
        assert_eq!(scaled, plain);
    }
}

#[test]
fn measurements_do_not_depend_on_position() {
    let size = bounds(2.0, 2.0, 5.0, 6.0);
    let plain = FaceGeometry::calculate_measurements(size, &some_landmarks(|x, y| (x, y)));
    assert!(plain.mouth_width_face_width.is_some());
    for (dx, dy) in [(1.0, 0.0), (-3.5, 2.25), (1024.0, -512.0)] {
        let moved = FaceGeometry::calculate_measurements(
            bounds(2.0 + dx, 2.0 + dy, 5.0, 6.0),
            &some_landmarks(|x, y| (x + dx, y + dy)),
        );
        assert_eq!(moved, plain);
    }
}

fn assert_near(left: Option<Double>, right: Option<Double>) {
    assert_eq!(left.is_some(), right.is_some());
    if let (Some(left), Some(right)) = (left, right) {
        assert!((number(left) - number(right)).abs() <= 1e-12);
    }
}

#[test]
fn measurements_agree_under_any_scale_and_shift() {
    for missing in 0..4 {
        let landmarks = |map: &dyn Fn(f64, f64) -> (f64, f64)| {
            let mut found = some_landmarks(map);
            if missing < found.len() {
                found.remove(missing);
            }
            found
        };
        let plain = FaceGeometry::calculate_measurements(
            bounds(2.0, 2.0, 5.0, 6.0),
            &landmarks(&|x, y| (x, y)),
        );
        for (factor, dx, dy) in [(3.0, 0.0, 0.0), (0.1, 0.3, -0.7), (7.3, -11.1, 1.0 / 3.0)] {
            let image = FaceGeometry::calculate_measurements(
                bounds(2.0 * factor + dx, 2.0 * factor + dy, 5.0 * factor, 6.0 * factor),
                &landmarks(&|x, y| (x * factor + dx, y * factor + dy)),
            );
            assert_near(Some(plain.face_aspect_ratio), Some(image.face_aspect_ratio));
            assert_near(
                plain.inter_eye_distance_face_width,
                image.inter_eye_distance_face_width,
            );
            assert_near(plain.mouth_width_face_width, image.mouth_width_face_width);
            assert_near(
                plain.eye_to_mouth_distance_face_height,
                image.eye_to_mouth_distance_face_height,
            );
        }
    }
}

#[test]
fn a_nose_is_found_by_its_crest_too() {
    let crest = region_with_points(LandmarkKind::NoseCrest, &[(0.5, 0.25), (0.5, 0.75)]);
    let tip = region_with_points(LandmarkKind::Nose, &[(0.25, 0.25)]);
    let empty = region_with_points(LandmarkKind::Nose, &[]);
    assert_eq!(nose(&vec![crest.clone(), tip]), Some(point(0.25, 0.25)));
    assert_eq!(nose(&vec![empty, crest]), Some(point(0.5, 0.5)));
    assert_eq!(nose(&Vec::new()), None);
}
