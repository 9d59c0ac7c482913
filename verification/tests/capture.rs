use facefeature::face_id::capture::{
    capture_quality, pose_guidance, pose_matches, vertical_pose_proxy, GuidedCaptureState,
    CAPTURE_HOLD_DURATION, CAPTURE_SAMPLES_PER_POSE, POSE_COUNT,
};
use facefeature::face_id::{
    landmark_pitch_degrees, CapturePose, FaceCaptureTarget, FaceIdentityMatch,
};
use facefeature::{
    BoundingBox, Double, FaceGeometry, LandmarkKind, LandmarkRegion, Point, Single,
};

fn double(x: f64) -> Double {
    Double::from_bits(x.to_bits())
}

fn single(x: f32) -> Single {
    Single::from_bits(x.to_bits())
}

fn number(x: Double) -> f64 {
    f64::from_bits(x.to_bits())
}

fn point(x: f64, y: f64) -> Point {
    Point { x: double(x), y: double(y) }
}

fn matches_pose(
    pose: CapturePose,
    yaw: f64,
    pitch: f64,
    horizontal_sign: Option<f64>,
    vertical_sign: Option<f64>,
) -> bool {
    pose_matches(
        pose,
        double(yaw),
        double(pitch),
        horizontal_sign.map(double),
        vertical_sign.map(double),
    )
}

fn guidance(pose: CapturePose, yaw: f64, pitch: f64) -> &'static str {
    pose_guidance(pose, double(yaw), double(pitch), None, None)
}

#[test]
fn guided_pose_ranges_calibrate_opposite_directions() {
    assert!(matches_pose(CapturePose::Center, 4.0, -3.0, None, None));
    assert!(matches_pose(CapturePose::Left, -25.0, 2.0, None, None));
    assert!(matches_pose(CapturePose::Right, 25.0, 2.0, Some(-1.0), None));
    assert!(matches_pose(CapturePose::Up, 2.0, 20.0, None, None));
    assert!(matches_pose(CapturePose::Down, 2.0, -20.0, None, Some(1.0)));
    assert!(!matches_pose(CapturePose::Right, -25.0, 2.0, Some(-1.0), None));
    assert!(matches_pose(CapturePose::Left, -45.0, 28.0, None, None));
    assert_eq!(guidance(CapturePose::Left, -6.0, 0.0), "turn farther toward the prompt");
    assert_eq!(guidance(CapturePose::Left, -58.0, 0.0), "turn slightly back toward the camera");
}

fn capture_test_face(yaw_degrees: f64, pitch_degrees: Option<f64>, nose_y: f64) -> FaceGeometry {
    let bounding_box = BoundingBox {
        x: double(0.25),
        y: double(0.15),
        width: double(0.5),
        height: double(0.65),
    };
    let landmarks = vec![
        LandmarkRegion { kind: LandmarkKind::LeftEye, points: vec![point(0.4, 0.65)] },
        LandmarkRegion { kind: LandmarkKind::RightEye, points: vec![point(0.6, 0.65)] },
        LandmarkRegion { kind: LandmarkKind::Nose, points: vec![point(0.5, nose_y)] },
        LandmarkRegion {
            kind: LandmarkKind::OuterLips,
            points: vec![point(0.44, 0.35), point(0.56, 0.35)],
        },
    ];
    FaceGeometry {
        confidence: single(0.98),
        landmark_confidence: single(0.98),
        bounding_box,
        roll_radians: Some(double(0.0)),
        yaw_radians: Some(double(yaw_degrees.to_radians())),
        pitch_radians: pitch_degrees.map(|degrees| double(degrees.to_radians())),
        measurements: FaceGeometry::calculate_measurements(bounding_box, &landmarks),
        landmarks,
    }
}

#[test]
fn straight_capture_uses_landmark_pitch_when_vision_pitch_is_missing() {
    let face = capture_test_face(0.0, None, 0.5);
    assert!(number(landmark_pitch_degrees(&face).unwrap()).abs() < f64::EPSILON);
    let mut state = GuidedCaptureState::new(FaceCaptureTarget::New { name: "Test".to_owned() });
    let started: u64 = 1_000_000_000;
    assert!(state.observe(&face, started).is_none());
    let request = state
        .observe(&face, started + CAPTURE_HOLD_DURATION + 1_000_000)
        .expect("straight pose should be captured without native pitch");
    assert_eq!(request.pose, CapturePose::Center);
    assert!(number(request.pitch_degrees).abs() < f64::EPSILON);
    assert!(request.vertical_proxy.is_some());
    assert!(!state.sample_completed(request));
    assert_eq!(state.samples(), 1);
    assert!(state.neutral_vertical().is_some());
    assert!(state.status().pitch_estimated);
}

fn pose_face(pose: CapturePose) -> FaceGeometry {
    match pose {
        CapturePose::Center => capture_test_face(0.0, Some(0.0), 0.5),
        CapturePose::Left => capture_test_face(-25.0, Some(0.0), 0.5),
        CapturePose::Right => capture_test_face(25.0, Some(0.0), 0.5),
        CapturePose::Up => capture_test_face(0.0, Some(18.0), 0.5),
        CapturePose::Down => capture_test_face(0.0, Some(-18.0), 0.5),
    }
}

#[test]
fn fifteen_steady_samples_finish_a_capture() {
    let mut state = GuidedCaptureState::new(FaceCaptureTarget::Existing { person_id: 3 });
    assert_eq!(state.status().subject, "Person 3");
    let mut now: u64 = 0;
    let mut finished = false;
    for index in 0..POSE_COUNT {
        let pose = CapturePose::at(index);
        for sample in 0..CAPTURE_SAMPLES_PER_POSE {
            assert!(!finished);
            assert_eq!(state.status().pose_number, index + 1);
            assert_eq!(state.status().samples, sample);
            assert_eq!(state.status().instruction, pose.instruction());
            let face = pose_face(pose);
            assert!(state.observe(&face, now).is_none());
            assert!(state.observe(&face, now + CAPTURE_HOLD_DURATION - 1).is_none());
            let request = state.observe(&face, now + CAPTURE_HOLD_DURATION).unwrap();
            assert_eq!(request.pose, pose);
            assert!(state.observe(&face, now + 2 * CAPTURE_HOLD_DURATION).is_none());
            finished = state.sample_completed(request);
            now += 3 * CAPTURE_HOLD_DURATION;
        }
    }
    assert!(finished);
    state.complete(FaceIdentityMatch {
        person_id: 3,
        name: Some("Radit".to_owned()),
        similarity: single(1.0),
        fingerprint: "0123456789abcdef".to_owned(),
        is_new: false,
        persisted: true,
    });
    let status = state.status();
    assert!(status.completed);
    assert_eq!(status.instruction, "CAPTURE COMPLETE");
    assert!(!status.alert);
    assert_eq!(status.message, "saved as Radit");
}

#[test]
fn trouble_warns_and_starts_the_hold_again() {
    let face = pose_face(CapturePose::Center);
    let mut state = GuidedCaptureState::new(FaceCaptureTarget::New { name: "Test".to_owned() });
    assert!(state.observe(&face, 0).is_none());
    state.report_problem("NO FACE \u{2014} move one person into view");
    assert!(state.status().alert);
    assert_eq!(state.status().message, "NO FACE \u{2014} move one person into view");
    assert!(state.observe(&face, CAPTURE_HOLD_DURATION).is_none());
    assert!(!state.status().alert);
    assert!(state.observe(&face, 2 * CAPTURE_HOLD_DURATION).is_some());
    state.release_pending("embedding queue is busy");
    assert!(state.status().alert);
    assert_eq!(state.samples(), 0);
}

#[test]
fn wrong_poses_and_bad_faces_are_objected_to() {
    let mut state = GuidedCaptureState::new(FaceCaptureTarget::New { name: "Test".to_owned() });
    let turned = capture_test_face(-30.0, Some(0.0), 0.5);
    assert!(state.observe(&turned, 0).is_none());
    assert!(state.observe(&turned, 10 * CAPTURE_HOLD_DURATION).is_none());
    assert!(state.status().alert);
    assert_eq!(state.status().message, "rotate your face back to center");
    let mut faint = pose_face(CapturePose::Center);
    faint.confidence = single(0.1);
    assert!(state.observe(&faint, 0).is_none());
    assert!(state.observe(&faint, 10 * CAPTURE_HOLD_DURATION).is_none());
    assert!(state.status().alert);
    assert_eq!(state.status().message, "move closer and improve lighting");
    let mut unknown = pose_face(CapturePose::Center);
    unknown.yaw_radians = None;
    assert!(state.observe(&unknown, 0).is_none());
    assert!(state.observe(&unknown, 10 * CAPTURE_HOLD_DURATION).is_none());
    assert!(state.status().yaw_degrees.is_none());
    assert_eq!(state.status().message, "yaw is unavailable");
    let mut bare = capture_test_face(0.0, None, 0.5);
    bare.landmarks.clear();
    assert!(state.observe(&bare, 0).is_none());
    assert_eq!(state.status().message, "pitch is unavailable");
    assert_eq!(state.samples(), 0);
}

#[test]
fn quality_weighs_confidence_size_and_roll() {
    let quality = |face: &FaceGeometry| f32::from_bits(capture_quality(face).to_bits());
    let mut face = pose_face(CapturePose::Center);
    let size = ((0.5_f64 * 0.65) / 0.08).min(1.0) as f32;
    assert_eq!(quality(&face), 0.98_f32 * 0.4 + 0.98_f32 * 0.3 + size * 0.2 + 1.0_f32 * 0.1);
    face.roll_radians = None;
    assert_eq!(quality(&face), 0.98_f32 * 0.4 + 0.98_f32 * 0.3 + size * 0.2 + 0.75_f32 * 0.1);
    face.roll_radians = Some(double(1.2));
    face.bounding_box.height = double(0.02);
    let size = ((0.5_f64 * 0.02) / 0.08).min(1.0) as f32;
    assert_eq!(quality(&face), 0.98_f32 * 0.4 + 0.98_f32 * 0.3 + size * 0.2 + 0.0_f32 * 0.1);
}

#[test]
fn guidance_fits_the_pose() {
    let signed = |pose, yaw: f64, pitch: f64| {
        pose_guidance(pose, double(yaw), double(pitch), Some(double(-1.0)), Some(double(1.0)))
    };
    assert_eq!(guidance(CapturePose::Center, 11.0, 0.0), "rotate your face back to center");
    assert_eq!(guidance(CapturePose::Center, 0.0, 11.0), "level your chin toward center");
    assert_eq!(signed(CapturePose::Left, 20.0, 0.0), "turn toward the other side");
    assert_eq!(signed(CapturePose::Right, -20.0, 0.0), "turn toward the opposite side from LEFT");
    assert_eq!(guidance(CapturePose::Up, 0.0, 11.0), "tilt farther toward the prompt");
    assert_eq!(guidance(CapturePose::Down, 0.0, 31.0), "tilt slightly back toward center");
    assert_eq!(signed(CapturePose::Up, 0.0, -20.0), "tilt toward the other vertical direction");
    assert_eq!(signed(CapturePose::Down, 0.0, 20.0), "tilt opposite from UP");
    assert_eq!(guidance(CapturePose::Up, 20.0, 20.0), "adjust your head toward the prompt");
}

#[test]
fn the_nose_height_stands_for_pitch() {
    let proxy = number(vertical_pose_proxy(&capture_test_face(0.0, None, 0.5)).unwrap());
    assert!((proxy - 0.5).abs() < 1e-12);
    let higher = number(vertical_pose_proxy(&capture_test_face(0.0, None, 0.53)).unwrap());
    let lower = number(vertical_pose_proxy(&capture_test_face(0.0, None, 0.47)).unwrap());
    assert!((higher - lower).abs() > 0.1);
    let mut bare = capture_test_face(0.0, None, 0.5);
    bare.landmarks.clear();
    assert!(vertical_pose_proxy(&bare).is_none());
    assert!(landmark_pitch_degrees(&bare).is_none());
}

#[test]
fn poses_have_labels_and_instructions() {
    let labels: Vec<&str> =
        (0..POSE_COUNT).map(|index| CapturePose::at(index).database_label()).collect();
    assert_eq!(labels, vec!["center", "left", "right", "up", "down"]);
    for index in 0..POSE_COUNT {
        assert!(!CapturePose::at(index).instruction().is_empty());
    }
}
