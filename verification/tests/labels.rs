use facefeature::camera::frame::vision_to_capture_point;
use facefeature::camera::labels::{
    banner_background, banner_foreground, banner_frame, capture_banner, capture_event,
    capture_line, face_label, face_label_frame,
    format_identity_label, format_pose, gallery_line, identity_event, startup_line,
};
use facefeature::face_id::consensus::Consensus;
use facefeature::face_id::gallery::PoseGroup;
use facefeature::face_id::{FaceCaptureStatus, FaceIdDatabaseMode, FaceIdentityMatch};
use facefeature::{
    BoundingBox, Double, FaceGeometry, LandmarkKind, LandmarkRegion, Point, Single, TrackedFace,
};

fn double(x: f64) -> Double {
    Double::from_bits(x.to_bits())
}

fn single(x: f32) -> Single {
    Single::from_bits(x.to_bits())
}

fn number(x: Double) -> f64 {
    f64::from_bits(x.to_bits())
}

fn point(x: f64, y: f64) -> Point {
    Point { x: double(x), y: double(y) }
}

#[test]
fn vision_points_keep_their_normalized_camera_position() {
    let mapped = vision_to_capture_point(point(0.2, 0.7));
    assert!((number(mapped.x) - 0.2).abs() < f64::EPSILON);
    assert!((number(mapped.y) - 0.7).abs() < f64::EPSILON);
}

#[test]
fn pose_label_uses_degrees_and_marks_missing_values() {
    assert_eq!(
        format_pose(
            Some(double(std::f64::consts::FRAC_PI_2)),
            None,
            Some(double(-4.25)),
            Some(double(-std::f64::consts::PI))
        ),
        "yaw 90.0\u{00b0}  pitch ~-4.2\u{00b0}  roll -180.0\u{00b0}"
    );
    assert_eq!(
        format_pose(
            None,
            Some(double(std::f64::consts::FRAC_PI_6)),
            Some(double(-20.0)),
            None,
        ),
        "yaw --  pitch 30.0\u{00b0}  roll --"
    );
}

fn identity() -> FaceIdentityMatch {
    FaceIdentityMatch {
        person_id: 7,
        name: Some("Radit".to_owned()),
        similarity: single(0.812),
        fingerprint: "034a7a9d04edc8ce".to_owned(),
        is_new: false,
        persisted: true,
    }
}

#[test]
fn identity_label_contains_name_similarity_and_fingerprint() {
    assert_eq!(
        format_identity_label(&identity()),
        "\nID Radit  similarity 0.812\nfp 034a7a9d04edc8ce"
    );
}

#[test]
fn unknown_read_only_identity_is_labeled_as_unmatched() {
    let identity = FaceIdentityMatch {
        person_id: 0,
        name: None,
        similarity: single(0.271),
        fingerprint: "candidate1234567".to_owned(),
        is_new: true,
        persisted: false,
    };
    assert_eq!(
        format_identity_label(&identity),
        "\nID Unknown  unmatched  best 0.271\nfp candidate1234567"
    );
}

#[test]
fn names_fall_back_to_numbers() {
    let mut identity = identity();
    assert_eq!(identity.display_name(), "Radit");
    identity.name = Some("  ".to_owned());
    assert_eq!(identity.display_name(), "Person 7");
    identity.name = None;
    assert_eq!(identity.display_name(), "Person 7");
    identity.persisted = false;
    assert_eq!(identity.display_name(), "Unknown");
}

#[test]
fn log_lines_are_as_documented() {
    let consensus = Consensus {
        embedding: Vec::new(),
        frames: 4,
        consistency: single(0.901),
        quality: single(0.91),
        group: PoseGroup::Horizontal,
    };
    let mut matched = FaceIdentityMatch {
        person_id: 1,
        name: None,
        similarity: single(0.812),
        fingerprint: "6abf4e91d2c84410".to_owned(),
        is_new: false,
        persisted: true,
    };
    assert_eq!(
        identity_event(36, &matched, &consensus),
        "face-id track=36 person=1 similarity=0.812 fingerprint=6abf4e91d2c84410 frames=3/4 consistency=0.901 quality=0.91 pose=horizontal"
    );
    let first = Consensus {
        embedding: Vec::new(),
        frames: 3,
        consistency: single(0.914),
        quality: single(0.88),
        group: PoseGroup::Center,
    };
    matched.is_new = true;
    matched.similarity = single(0.112);
    assert_eq!(
        identity_event(31, &matched, &first),
        "face-id track=31 person=1 similarity=new best=0.112 fingerprint=6abf4e91d2c84410 frames=3/3 consistency=0.914 quality=0.88 pose=center"
    );
    matched.persisted = false;
    assert_eq!(
        identity_event(31, &matched, &first),
        "face-id track=31 person=unknown similarity=unmatched best=0.112 fingerprint=6abf4e91d2c84410 frames=3/3 consistency=0.914 quality=0.88 pose=center"
    );
    assert_eq!(
        capture_event(&identity(), 15),
        "face-id capture complete person=7 name=\"Radit\" samples=15 fingerprint=034a7a9d04edc8ce"
    );
    assert_eq!(
        capture_line(7, "\"A\\tB\"", 15, "f"),
        "face-id capture complete person=7 name=\"A\\tB\" samples=15 fingerprint=f"
    );
    let mut tabbed = identity();
    tabbed.name = Some("A\tB".to_owned());
    assert_eq!(
        capture_event(&tabbed, 15),
        "face-id capture complete person=7 name=\"A\\tB\" samples=15 fingerprint=034a7a9d04edc8ce"
    );
    assert_eq!(
        gallery_line("data/a.sqlite3", 2, FaceIdDatabaseMode::ReadOnly),
        "face-id gallery=data/a.sqlite3 identities=2 schema=3 mode=read-only"
    );
    assert_eq!(
        startup_line("m.onnx", "d.sqlite3", FaceIdDatabaseMode::ReadWrite, true),
        "face-id enabled model=m.onnx database=d.sqlite3 mode=read-write operation=guided-capture backend=CoreML compute=all threshold=0.363"
    );
    assert_eq!(
        startup_line("m.onnx", "d.sqlite3", FaceIdDatabaseMode::ReadOnly, false),
        "face-id enabled model=m.onnx database=d.sqlite3 mode=read-only operation=recognition backend=CoreML compute=all threshold=0.363"
    );
}

fn followed_face() -> TrackedFace {
    let bounds = BoundingBox {
        x: double(0.25),
        y: double(0.25),
        width: double(0.5),
        height: double(0.25),
    };
    let landmarks = vec![LandmarkRegion {
        kind: LandmarkKind::AllPoints,
        points: vec![point(0.3, 0.3), point(0.4, 0.4)],
    }];
    TrackedFace {
        track_id: 12,
        geometry: FaceGeometry {
            confidence: single(0.5),
            landmark_confidence: single(0.25),
            bounding_box: bounds,
            roll_radians: None,
            yaw_radians: None,
            pitch_radians: None,
            measurements: FaceGeometry::calculate_measurements(bounds, &landmarks),
            landmarks,
        },
        velocity_per_second: point(0.0, 0.0),
        smoothing_lag_seconds: double(0.0),
    }
}

#[test]
fn face_labels_hold_the_diagnostics() {
    assert_eq!(
        face_label(&followed_face(), None, double(8.25)),
        "FACE 12  50%  2pts  8ms\nbox x 0.250  y 0.250\nsize w 0.500  h 0.250\ncenter 0.500, 0.375\nyaw --  pitch --  roll --"
    );
    assert_eq!(
        face_label(&followed_face(), Some(&identity()), double(8.25)),
        "FACE 12  50%  2pts  8ms\nID Radit  similarity 0.812\nfp 034a7a9d04edc8ce\nbox x 0.250  y 0.250\nsize w 0.500  h 0.250\ncenter 0.500, 0.375\nyaw --  pitch --  roll --"
    );
}

#[test]
fn the_banner_shows_progress_and_message() {
    let mut status = FaceCaptureStatus {
        subject: "Radit".to_owned(),
        instruction: "LOOK STRAIGHT".to_owned(),
        pose_number: 2,
        pose_count: 5,
        samples: 1,
        samples_required: 3,
        yaw_degrees: Some(double(12.5)),
        pitch_degrees: Some(double(0.0)),
        pitch_estimated: true,
        quality: single(0.5),
        message: "hold still".to_owned(),
        alert: false,
        completed: false,
    };
    assert_eq!(
        capture_banner(&status),
        "ENROLL Radit   pose 2/5   sample 1/3\nLOOK STRAIGHT\nyaw 12.5\u{00b0}  pitch ~0.0\u{00b0}  quality 50%   hold still"
    );
    status.pitch_estimated = false;
    status.yaw_degrees = None;
    assert_eq!(
        capture_banner(&status),
        "ENROLL Radit   pose 2/5   sample 1/3\nLOOK STRAIGHT\nyaw --  pitch 0.0\u{00b0}  quality 50%   hold still"
    );
}

#[test]
fn labels_and_banners_stay_in_the_window() {
    let frame = |left: f64, right: f64, width: f64| {
        face_label_frame(point(left, 100.0), point(right, 400.0), double(width), double(720.0))
    };
    let box_at = |x: f64, y: f64| BoundingBox {
        x: double(x),
        y: double(y),
        width: double(286.0),
        height: double(112.0),
    };
    assert_eq!(frame(100.0, 300.0, 1280.0), box_at(308.0, 288.0));
    assert_eq!(frame(900.0, 1250.0, 1280.0), box_at(606.0, 288.0));
    assert_eq!(frame(20.0, 380.0, 400.0), box_at(28.0, 288.0));
    assert_eq!(
        face_label_frame(point(0.0, 0.0), point(10.0, 50.0), double(1280.0), double(720.0)),
        box_at(18.0, 0.0)
    );
    assert_eq!(
        banner_frame(double(1280.0), double(720.0)),
        BoundingBox {
            x: double(370.0),
            y: double(624.0),
            width: double(540.0),
            height: double(78.0),
        }
    );
}

#[test]
fn the_banner_turns_red_where_it_warns() {
    let red = banner_background(true);
    assert_eq!(number(red.red), 0.72);
    assert_eq!(number(red.green), 0.03);
    assert_eq!(number(red.alpha), 0.94);
    assert_eq!(number(banner_background(false).red), 0.02);
    assert_eq!(number(banner_foreground(true, true).green), 0.94);
    assert_eq!(number(banner_foreground(false, true).red), 0.7);
    assert_eq!(number(banner_foreground(false, false).blue), 0.72);
}
