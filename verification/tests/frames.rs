use facefeature::camera::benchmark::{
    benchmark_header, hardware_summary, profile_field, report, report_text, value_or_unknown,
    BenchmarkReport,
};
use facefeature::camera::frame::{
    box_corners, camera_access, capture_problem, identities, mask_styles, outline, overlay_style,
    predicted_faces, wanted_faces, CameraAuthorization, FramePacing, LineStyle, Outline,
};
use facefeature::camera::options::FaceMaskMode;
use facefeature::face_id::FaceIdClient;
use facefeature::{
    BoundingBox, Double, FaceGeometry, FaceTracker, LandmarkKind, Point, Single,
};

fn double(x: f64) -> Double {
    Double::from_bits(x.to_bits())
}

fn number(x: Double) -> f64 {
    f64::from_bits(x.to_bits())
}

fn point(x: f64, y: f64) -> Point {
    Point { x: double(x), y: double(y) }
}

fn face(x: f64, confidence: f32) -> FaceGeometry {
    let bounding_box = BoundingBox {
        x: double(x),
        y: double(0.2),
        width: double(0.3),
        height: double(0.4),
    };
    FaceGeometry {
        confidence: Single::from_bits(confidence.to_bits()),
        landmark_confidence: Single::from_bits(confidence.to_bits()),
        bounding_box,
        roll_radians: None,
        yaw_radians: None,
        pitch_radians: None,
        measurements: FaceGeometry::calculate_measurements(bounding_box, &Vec::new()),
        landmarks: Vec::new(),
    }
}

#[test]
fn frames_are_accepted_at_thirty_a_second() {
    let mut pacing = FramePacing::new();
    assert!(pacing.accept(1_000_000_000));
    assert!(!pacing.accept(1_032_999_999));
    assert!(pacing.accept(1_033_000_000));
    assert!(!pacing.accept(0));
    let mut accepted = 0;
    for millisecond in 0..1000 {
        if pacing.accept(2_000_000_000 + millisecond * 1_000_000) {
            accepted += 1;
        }
    }
    assert_eq!(accepted, 31);
}

#[test]
fn labels_change_at_five_a_second_and_vanish_at_once() {
    let mut pacing = FramePacing::new();
    assert!(pacing.refresh_labels(1, 0));
    assert!(!pacing.refresh_labels(1, 199_999_999));
    assert!(pacing.refresh_labels(1, 200_000_000));
    assert!(pacing.refresh_labels(0, 200_000_001));
    assert!(pacing.refresh_labels(0, 200_000_002));
    assert!(pacing.refresh_labels(1, 200_000_003));
}

#[test]
fn only_the_first_failure_is_reported() {
    let mut pacing = FramePacing::new();
    assert!(pacing.report_error());
    assert!(!pacing.report_error());
}

#[test]
fn guided_capture_takes_exactly_one_face() {
    assert_eq!(capture_problem(0), Some("NO FACE \u{2014} move one person into view"));
    assert_eq!(capture_problem(1), None);
    assert_eq!(capture_problem(2), Some("MULTIPLE FACES \u{2014} only one person is allowed"));
}

#[test]
fn faces_are_shown_ahead_of_the_pipeline() {
    let mut tracker = FaceTracker::default();
    tracker.update_at(vec![face(0.1, 0.9)], 0);
    let followed = tracker.update_at(vec![face(0.2, 0.9)], 100_000_000);
    let shown = predicted_faces(&followed, double(0.008));
    assert_eq!(
        shown[0].geometry.bounding_box,
        followed[0].predicted(double(0.008 + 1.0 / 60.0)).geometry.bounding_box
    );
    assert!(number(shown[0].geometry.bounding_box.x) > number(followed[0].geometry.bounding_box.x));
}

#[test]
fn usable_faces_are_sent_and_named() {
    let mut tracker = FaceTracker::default();
    let followed = tracker.update_at(vec![face(0.0, 0.9), face(0.35, 0.2), face(0.7, 0.95)], 0);
    let client = FaceIdClient::new(None);
    assert_eq!(wanted_faces(&client, &followed, 0), vec![0, 2]);
    let names = identities(&client, &followed);
    assert_eq!(names.len(), 3);
    assert!(names.iter().all(|name| name.is_none()));
}

#[test]
fn regions_are_outlined_by_their_kind() {
    assert_eq!(outline(LandmarkKind::AllPoints, 9), Outline::Hidden);
    assert_eq!(outline(LandmarkKind::Nose, 0), Outline::Hidden);
    assert_eq!(outline(LandmarkKind::LeftPupil, 1), Outline::Marker);
    assert_eq!(outline(LandmarkKind::Nose, 5), Outline::Closed);
    assert_eq!(outline(LandmarkKind::FaceContour, 5), Outline::Open);
    let corners = box_corners(BoundingBox {
        x: double(0.25),
        y: double(0.5),
        width: double(0.5),
        height: double(0.25),
    });
    assert_eq!(
        corners,
        vec![point(0.25, 0.5), point(0.75, 0.5), point(0.75, 0.75), point(0.25, 0.75)]
    );
}

#[test]
fn meshes_have_their_styles() {
    assert_eq!(
        overlay_style(FaceMaskMode::Polygon),
        LineStyle { alpha: double(0.95), width: double(2.0) }
    );
    assert_eq!(
        overlay_style(FaceMaskMode::Depth),
        LineStyle { alpha: double(0.70), width: double(1.15) }
    );
    assert!(mask_styles(FaceMaskMode::Off).is_empty());
    assert_eq!(
        mask_styles(FaceMaskMode::Polygon),
        vec![LineStyle { alpha: double(0.72), width: double(0.85) }]
    );
    let layers = mask_styles(FaceMaskMode::Depth);
    assert_eq!(layers.len(), 8);
    assert_eq!(layers[0], LineStyle { alpha: double(0.22), width: double(0.58) });
    let intensity = 3.0 / 7.0;
    assert_eq!(
        layers[3],
        LineStyle { alpha: double(0.22 + intensity * 0.56), width: double(0.58 + intensity * 0.26) }
    );
}

#[test]
fn camera_access_is_granted_asked_for_or_refused() {
    assert_eq!(camera_access(CameraAuthorization::Authorized), Ok(true));
    assert_eq!(camera_access(CameraAuthorization::NotDetermined), Ok(false));
    assert!(camera_access(CameraAuthorization::Denied).unwrap_err().starts_with("camera access is denied"));
    assert_eq!(
        camera_access(CameraAuthorization::Restricted),
        Err("camera access is restricted by system policy")
    );
    assert_eq!(
        camera_access(CameraAuthorization::Unknown),
        Err("macOS returned an unknown camera authorization status")
    );
}

#[test]
fn timings_are_summed_up() {
    let times: Vec<u64> = (1..=100).rev().map(|time| time * 1_000_000).collect();
    let summary = report(42_972_000, 8_357_000, &times, 128);
    assert_eq!(summary.iterations, 100);
    assert_eq!(summary.warmup_iterations, 5);
    assert_eq!(number(summary.session_initialization_ms), 42.972);
    assert_eq!(number(summary.average_inference_ms), 50.5);
    assert_eq!(number(summary.median_inference_ms), 50.5);
    assert_eq!(number(summary.p95_inference_ms), 95.0);
    assert_eq!(number(summary.minimum_inference_ms), 1.0);
    assert_eq!(number(summary.maximum_inference_ms), 100.0);
    assert_eq!(number(summary.embeddings_per_second), 1000.0 / 50.5);
    let one = report(0, 0, &vec![7_000_000], 128);
    assert_eq!(number(one.median_inference_ms), 7.0);
    assert_eq!(number(one.p95_inference_ms), 7.0);
}

#[test]
fn reports_read_as_documented() {
    let summary = BenchmarkReport {
        session_initialization_ms: double(42.972),
        first_inference_ms: double(8.357),
        iterations: 100,
        warmup_iterations: 5,
        average_inference_ms: double(7.956),
        median_inference_ms: double(7.891),
        p95_inference_ms: double(8.383),
        minimum_inference_ms: double(6.874),
        maximum_inference_ms: double(8.767),
        embeddings_per_second: double(125.7),
        embedding_dimensions: 128,
    };
    assert_eq!(
        report_text(&summary),
        "session initialization: 42.972 ms\nfirst inference:       8.357 ms\nsteady state (100 runs after 5 warmups):\n  average:             7.956 ms\n  median (p50):        7.891 ms\n  p95:                 8.383 ms\n  min / max:           6.874 / 8.767 ms\n  throughput:          125.7 embeddings/s\nembedding dimensions:  128\nnote: synthetic input; this measures embedding compute, not camera or Vision"
    );
    assert_eq!(
        benchmark_header(
            "MacBook Air | Apple M1 | arm64",
            "8 GB",
            "27.0",
            "models/face_recognition_sface_2021dec.onnx"
        ),
        "SFace/Core ML benchmark\nhardware: MacBook Air | Apple M1 | arm64 | memory: 8 GB | macOS: 27.0\nmodel: models/face_recognition_sface_2021dec.onnx\nbackend: CoreML | compute units: all | input: 1x3x112x112"
    );
}

#[test]
fn the_machine_is_described_by_its_profile() {
    let profile = "Hardware:\n\n    Hardware Overview:\n\n      Model Name: MacBook Air\n      Chip: Apple M1\r\n      Memory: 8 GB\n";
    assert_eq!(profile_field(profile, "Chip:"), Some("Apple M1".to_owned()));
    assert_eq!(profile_field(profile, "Serial:"), None);
    assert_eq!(
        hardware_summary(profile, "arm64"),
        ("MacBook Air | Apple M1 | arm64".to_owned(), "8 GB".to_owned())
    );
    assert_eq!(
        hardware_summary("", "arm64"),
        ("Mac | arm64 | arm64".to_owned(), "unknown".to_owned())
    );
    assert_eq!(value_or_unknown(" 27.0\n"), "27.0");
    assert_eq!(value_or_unknown(" \n"), "unknown");
}
