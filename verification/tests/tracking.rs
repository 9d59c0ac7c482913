use facefeature::tracker::hungarian_minimize;
use facefeature::{
    BoundingBox, Double, FaceGeometry, FaceTracker, FaceTrackerConfig, GeometryMeasurements,
    LandmarkKind, LandmarkRegion, Point, Single, TrackedFace,
};

fn double(x: f64) -> Double {
    Double::from_bits(x.to_bits())
}

fn single(x: f32) -> Single {
    Single::from_bits(x.to_bits())
}

fn number(x: Double) -> f64 {
    f64::from_bits(x.to_bits())
}

fn point(x: f64, y: f64) -> Point {
    Point { x: double(x), y: double(y) }
}

fn ids(faces: &[TrackedFace]) -> Vec<u64> {
    faces.iter().map(|face| face.track_id).collect()
}

fn face(x: f64) -> FaceGeometry {
    let bounding_box = BoundingBox {
        x: double(x),
        y: double(0.2),
        width: double(0.2),
        height: double(0.3),
    };
    FaceGeometry {
        confidence: single(1.0),
        landmark_confidence: single(1.0),
        bounding_box,
        roll_radians: None,
        yaw_radians: None,
        pitch_radians: None,
        measurements: GeometryMeasurements {
            face_aspect_ratio: double(1.5),
            inter_eye_distance_face_width: None,
            mouth_width_face_width: None,
            eye_to_mouth_distance_face_height: None,
        },
        landmarks: Vec::new(),
    }
}

fn face_with_points(x: f64, points: Vec<Point>) -> FaceGeometry {
    let mut face = face(x);
    face.landmarks.push(LandmarkRegion { kind: LandmarkKind::AllPoints, points });
    face
}

fn tracker(max_missed_frames: u32, smoothing_factor: f64) -> FaceTracker {
    FaceTracker::new(FaceTrackerConfig {
        max_missed_frames,
        smoothing_factor: double(smoothing_factor),
    })
}

#[test]
fn ids_follow_faces_when_detection_order_changes() {
    let mut tracker = FaceTracker::default();
    let first = tracker.update(vec![face(0.10), face(0.70)]);
    assert_eq!(ids(&first), vec![1, 2]);

    let second = tracker.update(vec![face(0.69), face(0.11)]);
    assert_eq!(ids(&second), vec![2, 1]);
}

#[test]
fn a_short_disappearance_keeps_the_id() {
    let mut tracker = tracker(2, 1.0);
    assert_eq!(ids(&tracker.update(vec![face(0.2)])), vec![1]);
    assert!(tracker.update(Vec::new()).is_empty());
    assert_eq!(ids(&tracker.update(vec![face(0.21)])), vec![1]);
}

#[test]
fn expired_tracks_receive_a_new_id() {
    let mut tracker = tracker(1, 1.0);
    assert_eq!(ids(&tracker.update(vec![face(0.2)])), vec![1]);
    tracker.update(Vec::new());
    tracker.update(Vec::new());
    assert_eq!(ids(&tracker.update(vec![face(0.2)])), vec![2]);
}

#[test]
fn smoothing_reduces_single_frame_box_jitter() {
    let mut tracker = tracker(1, 0.5);
    tracker.update(vec![face(0.2)]);
    let followed = tracker.update(vec![face(0.3)]);
    assert!((number(followed[0].geometry.bounding_box.x) - 0.25).abs() < 1e-12);
}

#[test]
fn prediction_moves_geometry_forward_by_measured_velocity() {
    let mut tracker = tracker(1, 1.0);
    let start: u64 = 5_000_000_000;
    tracker.update_at(vec![face(0.2)], start);
    let followed = tracker.update_at(vec![face(0.3)], start + 100_000_000);
    let predicted = followed[0].predicted(double(0.1));

    // Velocity is deliberately damped to 65% of the raw 1.0 normalized-unit/second motion.
    assert!((number(predicted.geometry.bounding_box.x) - 0.365).abs() < 1e-12);
}

#[test]
fn hungarian_assignment_finds_the_global_minimum() {
    let assignment = hungarian_minimize(&vec![
        vec![double(4.0), double(1.0), double(3.0)],
        vec![double(2.0), double(0.0), double(5.0)],
        vec![double(3.0), double(2.0), double(2.0)],
    ]);
    assert_eq!(assignment, vec![1, 0, 2]);
}

#[test]
fn an_assignment_of_nothing_is_empty() {
    assert_eq!(hungarian_minimize(&Vec::new()), Vec::<usize>::new());
}

#[test]
fn assignments_are_minimal_on_all_small_matrices_of_a_kind() {
    let mut seed: u64 = 7;
    for _ in 0..200 {
        let mut costs: Vec<Vec<Double>> = Vec::new();
        let mut plain: Vec<Vec<u64>> = Vec::new();
        for _ in 0..4 {
            let mut row = Vec::new();
            for _ in 0..4 {
                seed = seed.wrapping_mul(6364136223846793005).wrapping_add(1442695040888963407);
                row.push((seed >> 33) % 10);
            }
            costs.push(row.iter().map(|cost| double(*cost as f64)).collect());
            plain.push(row);
        }
        let found = hungarian_minimize(&costs);
        let total: u64 = (0..4).map(|row| plain[row][found[row]]).sum();
        let mut best = u64::MAX;
        for a in 0..4 {
            for b in 0..4 {
                for c in 0..4 {
                    for d in 0..4 {
                        let mut columns = vec![a, b, c, d];
                        let sum = plain[0][a] + plain[1][b] + plain[2][c] + plain[3][d];
                        columns.sort();
                        columns.dedup();
                        if columns.len() == 4 && sum < best {
                            best = sum;
                        }
                    }
                }
            }
        }
        assert_eq!(total, best);
    }
}

#[test]
fn a_distant_face_starts_a_new_track() {
    let mut tracker = tracker(5, 1.0);
    assert_eq!(ids(&tracker.update_at(vec![face(0.0)], 0)), vec![1]);
    assert_eq!(ids(&tracker.update_at(vec![face(0.75)], 33_000_000)), vec![2]);
    assert_eq!(tracker.track_count(), 2);
    assert_eq!(ids(&tracker.update_at(vec![face(0.75), face(0.0)], 66_000_000)), vec![2, 1]);
}

#[test]
fn every_number_is_used_once() {
    let mut tracker = tracker(0, 1.0);
    for round in 0..5 {
        let found = tracker.update_at(vec![face(0.1), face(0.7)], round * 2_000_000);
        assert_eq!(ids(&found), vec![2 * round + 1, 2 * round + 2]);
        assert!(tracker.update_at(Vec::new(), round * 2_000_000 + 1_000_000).is_empty());
        assert_eq!(tracker.track_count(), 0);
    }
}

#[test]
fn every_order_of_detections_gives_the_same_numbers() {
    let places = [0.02, 0.27, 0.52, 0.77];
    let orders = [[0, 1, 2, 3], [3, 2, 1, 0], [1, 3, 0, 2], [2, 0, 3, 1]];
    for order in orders {
        let mut tracker = FaceTracker::default();
        tracker.update_at(places.iter().map(|x| face(*x)).collect(), 0);
        let found = tracker.update_at(
            order.iter().map(|index| face(places[*index] + 0.01)).collect(),
            33_000_000,
        );
        let expected: Vec<u64> = order.iter().map(|index| *index as u64 + 1).collect();
        assert_eq!(ids(&found), expected);
    }
}

#[test]
fn landmarks_decide_between_overlapping_faces() {
    let left = vec![point(0.21, 0.25), point(0.25, 0.45)];
    let right = vec![point(0.37, 0.25), point(0.33, 0.45)];
    let mut tracker = tracker(5, 1.0);
    tracker.update_at(
        vec![face_with_points(0.20, left.clone()), face_with_points(0.20, right.clone())],
        0,
    );
    let found = tracker.update_at(
        vec![face_with_points(0.20, right), face_with_points(0.20, left)],
        33_000_000,
    );
    assert_eq!(ids(&found), vec![2, 1]);
}

#[test]
fn smoothing_also_moves_landmarks_part_of_the_way() {
    let mut tracker = tracker(1, 0.25);
    tracker.update_at(vec![face_with_points(0.2, vec![point(0.25, 0.3)])], 0);
    let found = tracker.update_at(
        vec![face_with_points(0.2, vec![point(0.29, 0.34)])],
        33_000_000,
    );
    let smoothed = found[0].geometry.landmarks[0].points[0];
    assert!((number(smoothed.x) - 0.26).abs() < 1e-12);
    assert!((number(smoothed.y) - 0.31).abs() < 1e-12);
}

#[test]
fn prediction_looks_ahead_for_a_limited_time() {
    let mut tracker = tracker(1, 1.0);
    tracker.update_at(vec![face(0.2)], 0);
    let followed = tracker.update_at(vec![face(0.3)], 100_000_000);
    let far = followed[0].predicted(double(60.0));
    let farther = followed[0].predicted(double(600.0));
    assert_eq!(far.geometry.bounding_box.x, farther.geometry.bounding_box.x);
    assert!(number(far.geometry.bounding_box.x) > 0.3);
    let none = followed[0].predicted(double(0.0));
    assert_eq!(none.geometry.bounding_box.x, double(0.3));
}

fn columns(costs: &[&[f64]]) -> Vec<usize> {
    let costs: Vec<Vec<Double>> =
        costs.iter().map(|row| row.iter().map(|cost| double(*cost)).collect()).collect();
    hungarian_minimize(&costs)
}

#[test]
fn large_costs_are_told_apart() {
    let big = 2.0f64.powi(30);
    let less = 2.0f64.powi(21);
    assert_eq!(columns(&[&[big, less], &[less, 0.0]]), vec![1, 0]);
    assert_eq!(columns(&[&[3e300, 1e300], &[1e300, 3e300]]), vec![1, 0]);
    assert_eq!(columns(&[&[f64::MAX, 1.0], &[1.0, f64::MAX]]), vec![1, 0]);
    assert_eq!(columns(&[&[2_000_001.0, 2_000_000.0], &[2_000_000.0, 2_000_001.0]]), vec![1, 0]);
}

#[test]
fn small_costs_are_told_apart() {
    assert_eq!(columns(&[&[2e-20, 1e-20], &[1e-20, 2e-20]]), vec![1, 0]);
    assert_eq!(columns(&[&[1e-20, 2e-20], &[2e-20, 1e-20]]), vec![0, 1]);
    let least = f64::from_bits(1);
    assert_eq!(columns(&[&[2.0 * least, least], &[least, 2.0 * least]]), vec![1, 0]);
    assert_eq!(columns(&[&[1e-300, 0.0], &[0.0, 1e-300]]), vec![1, 0]);
    // Small costs still count beside a large one.
    assert_eq!(
        columns(&[&[2e-15, 1e-15, 1e6], &[1e-15, 2e-15, 1e6], &[1e6, 1e6, 0.0]]),
        vec![1, 0, 2],
    );
}

#[test]
fn negative_costs_are_told_apart() {
    assert_eq!(columns(&[&[-1e9, -3e9], &[-3e9, -1e9]]), vec![1, 0]);
    assert_eq!(columns(&[&[-3e-30, -1e-30], &[-1e-30, -3e-30]]), vec![0, 1]);
}

#[test]
fn costs_that_are_not_finite_are_avoided() {
    assert_eq!(columns(&[&[f64::NAN, 5.0], &[1.0, f64::NAN]]), vec![1, 0]);
    assert_eq!(columns(&[&[1e300, f64::INFINITY], &[f64::INFINITY, 1e300]]), vec![0, 1]);
}

#[test]
fn assignments_do_not_depend_on_the_unit_of_cost() {
    let plain = [[4.0, 1.0, 3.0], [2.0, 0.0, 5.0], [3.0, 2.0, 2.0]];
    for power in [-1070, -500, -60, 0, 20, 60, 500, 1000] {
        // Half a power at a time keeps the factor itself within range.
        let factor = 2.0f64.powi(power / 2);
        let rest = 2.0f64.powi(power - power / 2);
        let costs: Vec<Vec<Double>> = plain
            .iter()
            .map(|row| row.iter().map(|cost| double(cost * factor * rest)).collect())
            .collect();
        assert_eq!(hungarian_minimize(&costs), vec![1, 0, 2]);
    }
}

#[test]
fn a_face_gets_its_number_back_within_the_allowed_misses() {
    for missed in 0..5u64 {
        let mut tracker = tracker(2, 1.0);
        assert_eq!(ids(&tracker.update_at(vec![face(0.2)], 0)), vec![1]);
        for step in 0..missed {
            assert!(tracker.update_at(Vec::new(), 33_000_000 * (step + 1)).is_empty());
        }
        let found = tracker.update_at(vec![face(0.2)], 33_000_000 * (missed + 1));
        assert_eq!(ids(&found), vec![if missed <= 2 { 1 } else { 2 }]);
    }
}

#[test]
fn boxes_of_any_moderate_size_are_followed() {
    let scaled = |power: i32| {
        let mut face = face(0.2);
        let factor = 2.0f64.powi(power);
        face.bounding_box = BoundingBox {
            x: double(-0.2 * factor),
            y: double(0.2 * factor),
            width: double(0.2 * factor),
            height: double(0.3 * factor),
        };
        face
    };
    for power in [-1040, -500, -20, 0, 20, 480] {
        let mut tracker = tracker(2, 1.0);
        tracker.update_at(vec![scaled(power)], 0);
        let found = tracker.update_at(vec![scaled(power)], 33_000_000);
        assert_eq!(ids(&found), vec![1]);
    }
    // The area of a huge box is out of range.
    let mut tracker = tracker(2, 1.0);
    tracker.update_at(vec![scaled(1020)], 0);
    assert_eq!(ids(&tracker.update_at(vec![scaled(1020)], 33_000_000)), vec![2]);
}
