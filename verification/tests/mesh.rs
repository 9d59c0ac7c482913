use facefeature::camera::depth::{
    canonical_face_coordinates, feature_exponents, head_angles, pseudo_face_depth, shade_band,
    shade_edges, triangle_surface_brightness, Features, SinCos,
};
use facefeature::camera::frame::{mesh_edges, DEPTH_LAYER_COUNT};
use facefeature::camera::mesh::{
    add_forehead_mesh_vertices, deduplicate_mesh_vertices, ray_distance_to_bounds,
};
use facefeature::camera::surface::{
    interpolate_uniform_mesh, polygon_face_mesh, triangle_is_feature_hole,
};
use facefeature::camera::triangulation::{
    circumcircle, delaunay_triangles, holds, point_in_polygon, triangle_area, Triangle,
};
use facefeature::camera::warp::{
    apply_yaw_visibility_warp, interpolate_axis_x, yaw_visibility_axis,
};
use facefeature::{
    BoundingBox, Double, FaceGeometry, LandmarkKind, LandmarkRegion, Point, Single,
};

fn double(x: f64) -> Double {
    Double::from_bits(x.to_bits())
}

fn single(x: f32) -> Single {
    Single::from_bits(x.to_bits())
}

fn number(x: Double) -> f64 {
    f64::from_bits(x.to_bits())
}

fn point(x: f64, y: f64) -> Point {
    Point { x: double(x), y: double(y) }
}

fn bounds(x: f64, y: f64, width: f64, height: f64) -> BoundingBox {
    BoundingBox { x: double(x), y: double(y), width: double(width), height: double(height) }
}

fn region(kind: LandmarkKind, points: Vec<Point>) -> LandmarkRegion {
    LandmarkRegion { kind, points }
}

fn face(
    bounding_box: BoundingBox,
    roll: Option<f64>,
    yaw: Option<f64>,
    landmarks: Vec<LandmarkRegion>,
) -> FaceGeometry {
    FaceGeometry {
        confidence: single(0.99),
        landmark_confidence: single(0.99),
        bounding_box,
        roll_radians: roll.map(double),
        yaw_radians: yaw.map(double),
        pitch_radians: None,
        measurements: FaceGeometry::calculate_measurements(bounding_box, &landmarks),
        landmarks,
    }
}

fn sin_cos(angle: Double) -> SinCos {
    let (sin, cos) = number(angle).sin_cos();
    SinCos { sin: double(sin), cos: double(cos) }
}

fn weight(exponent: Option<Double>) -> Option<Double> {
    exponent.map(|exponent| double(number(exponent).exp()))
}

fn depth(face: &FaceGeometry, point: Point) -> f64 {
    let exponents = feature_exponents(face, point);
    let weights = Features {
        nose: weight(exponents.nose),
        mouth: weight(exponents.mouth),
        left_eye: weight(exponents.left_eye),
        right_eye: weight(exponents.right_eye),
    };
    let roll = sin_cos(head_angles(face).roll);
    number(pseudo_face_depth(face.bounding_box, roll, weights, point))
}

#[test]
fn pseudo_depth_places_the_nose_in_front_of_the_face_edge() {
    let landmarks = vec![
        region(LandmarkKind::FaceContour, vec![point(0.2, 0.5), point(0.5, 0.1)]),
        region(LandmarkKind::Nose, vec![point(0.5, 0.5)]),
    ];
    let mut face = face(bounds(0.2, 0.1, 0.6, 0.8), None, Some(0.0), landmarks);
    let nose_depth = depth(&face, point(0.5, 0.5));
    let edge_depth = depth(&face, point(0.2, 0.5));
    assert!(nose_depth > edge_depth + 0.5);
    let outside_depth = depth(&face, point(0.08, 0.5));
    assert!(outside_depth >= 0.08);
    face.yaw_radians = Some(double((-45.0_f64).to_radians()));
    let profile_edge_depth = depth(&face, point(0.2, 0.5));
    assert!((profile_edge_depth - edge_depth).abs() < 1e-12);
    assert_eq!(shade_band(double(0.0), DEPTH_LAYER_COUNT), 0);
    assert_eq!(shade_band(double(1.0), DEPTH_LAYER_COUNT), DEPTH_LAYER_COUNT - 1);
    assert_eq!(shade_band(double(0.5), DEPTH_LAYER_COUNT), 4);
}

#[test]
fn polygon_mesh_densifies_the_contour_with_a_forehead() {
    let bounds = bounds(0.2, 0.1, 0.5, 0.7);
    let landmarks = vec![
        region(
            LandmarkKind::FaceContour,
            vec![
                point(0.23, 0.55),
                point(0.27, 0.24),
                point(0.45, 0.13),
                point(0.63, 0.24),
                // Rotated/smoothed landmark geometry can legitimately extend beyond the
                // current axis-aligned box (whose right edge is 0.70).
                point(0.72, 0.55),
            ],
        ),
        region(LandmarkKind::Nose, vec![point(0.45, 0.43)]),
        region(LandmarkKind::LeftEye, vec![point(0.35, 0.74)]),
        region(LandmarkKind::RightEye, vec![point(0.55, 0.74)]),
    ];
    let face = face(bounds, None, None, landmarks);

    let mesh = polygon_face_mesh(&face).unwrap();
    assert!(mesh.vertices.len() > landmarks_point_count(&face) + 48);
    assert!(mesh.triangles.len() > 20);
    assert!(mesh.vertices.iter().any(|point| number(point.y) > 0.1 + 0.7 * 0.9));
    assert!(mesh
        .triangles
        .iter()
        .all(|t| [t.a, t.b, t.c].iter().all(|index| *index < mesh.vertices.len())));
    assert!(mesh
        .vertices
        .iter()
        .all(|point| (0.23..=0.72).contains(&number(point.x))));
    assert!(mesh.vertices.iter().any(|point| number(point.x) > 0.2 + 0.5));
    let place = |index: usize| {
        let vertex = mesh.vertices[index];
        ((number(vertex.x) - 0.2) / 0.5, (number(vertex.y) - 0.1) / 0.7)
    };
    let longest_edge = mesh
        .triangles
        .iter()
        .flat_map(|t| [(t.a, t.b), (t.b, t.c), (t.c, t.a)])
        .map(|(left, right)| {
            let left = place(left);
            let right = place(right);
            (left.0 - right.0).hypot(left.1 - right.1)
        })
        .fold(0.0_f64, f64::max);
    assert!(longest_edge <= 0.085, "longest edge was {longest_edge}");
    assert!(mesh.vertices.len() <= 600);
}

#[test]
fn delaunay_mesh_triangulates_a_square() {
    let triangles = delaunay_triangles(&vec![
        point(0.0, 0.0),
        point(1.0, 0.0),
        point(1.0, 1.0),
        point(0.0, 1.0),
    ]);
    assert_eq!(triangles.len(), 2);
}

#[test]
fn circles_of_a_triangulation_hold_no_later_point() {
    let mut seed: u64 = 11;
    let mut next = || {
        seed = seed.wrapping_mul(6364136223846793005).wrapping_add(1442695040888963407);
        (seed >> 40) as f64 / (1u64 << 24) as f64
    };
    let points: Vec<Point> = (0..30).map(|_| point(next(), next())).collect();
    let triangles = delaunay_triangles(&points);
    assert!(triangles.len() > 30);
    for t in triangles {
        assert!(t.a < t.b && t.b < t.c && t.c < points.len());
        let circle = circumcircle(points[t.a], points[t.b], points[t.c]);
        assert!(holds(circle, points[t.a]));
        for later in &points[t.c + 1..] {
            assert!(!holds(circle, *later));
        }
    }
}

fn scattered_points(count: usize, start: u64) -> Vec<Point> {
    let mut seed = start;
    let mut next = || {
        seed = seed.wrapping_mul(6364136223846793005).wrapping_add(1442695040888963407);
        (seed >> 40) as f64 / (1u64 << 24) as f64
    };
    (0..count).map(|_| point(next(), next())).collect()
}

#[test]
fn no_triangle_occurs_twice() {
    let mut grid = Vec::new();
    for i in 0..5 {
        for j in 0..5 {
            grid.push(point(i as f64 / 4.0, j as f64 / 4.0));
        }
    }
    let mut repeated = scattered_points(12, 5);
    repeated.push(repeated[3]);
    repeated.push(repeated[0]);
    for points in [grid, repeated, scattered_points(40, 3)] {
        let triangles = delaunay_triangles(&points);
        assert!(!triangles.is_empty());
        for (i, t) in triangles.iter().enumerate() {
            assert!(t.a < t.b && t.b < t.c && t.c < points.len());
            for other in &triangles[i + 1..] {
                assert!(t.a != other.a || t.b != other.b || t.c != other.c);
            }
        }
    }
}

#[test]
fn scattered_points_have_every_triangle_with_an_empty_circle() {
    for start in [2, 7, 23] {
        let points = scattered_points(14, start);
        let mut all = points.clone();
        all.extend([point(-10.0, -10.0), point(10.0, -10.0), point(0.0, 10.0)]);
        let triangles = delaunay_triangles(&points);
        let mut empty = 0;
        for a in 0..points.len() {
            for b in a + 1..points.len() {
                for c in b + 1..points.len() {
                    let circle = circumcircle(points[a], points[b], points[c]);
                    let is_empty = (0..all.len())
                        .all(|m| m == a || m == b || m == c || !holds(circle, all[m]));
                    let is_found = triangles.iter().any(|t| t.a == a && t.b == b && t.c == c);
                    assert_eq!(is_found, is_empty);
                    if is_empty {
                        empty += 1;
                    }
                }
            }
        }
        assert_eq!(empty, triangles.len());
    }
}

#[test]
fn warped_vertices_stay_between_the_limit_and_their_old_place() {
    let landmarks = vec![
        region(LandmarkKind::FaceContour, vec![point(0.23, 0.55), point(0.45, 0.13)]),
        region(LandmarkKind::LeftEye, vec![point(0.35, 0.65)]),
        region(LandmarkKind::RightEye, vec![point(0.55, 0.65)]),
        region(LandmarkKind::Nose, vec![point(0.45, 0.45)]),
        region(LandmarkKind::OuterLips, vec![point(0.45, 0.30)]),
    ];
    for degrees in [-80.0_f64, -45.0, -20.0, 0.0, 20.0, 45.0, 80.0] {
        let face = face(
            bounds(0.2, 0.1, 0.5, 0.7),
            None,
            Some(degrees.to_radians()),
            landmarks.clone(),
        );
        let axis = yaw_visibility_axis(&face);
        for step in 0..=20 {
            let y = 0.1 + 0.035 * step as f64;
            let middle = number(interpolate_axis_x(&axis, double(y)));
            for x in [0.2, 0.31, 0.45, 0.58, 0.7] {
                let mut vertices = vec![point(x, y)];
                apply_yaw_visibility_warp(&face, &mut vertices);
                let new_x = number(vertices[0].x);
                assert_eq!(number(vertices[0].y), y);
                if x > middle {
                    assert!(middle <= new_x && new_x <= x);
                } else {
                    assert!(x <= new_x && new_x <= middle);
                }
            }
        }
    }
}

#[test]
fn eyes_and_eyebrows_are_not_warped() {
    let landmarks = vec![
        region(LandmarkKind::FaceContour, vec![point(0.23, 0.55), point(0.45, 0.13)]),
        region(LandmarkKind::LeftEye, vec![point(0.31, 0.65), point(0.37, 0.66)]),
        region(LandmarkKind::RightEye, vec![point(0.53, 0.66), point(0.59, 0.65)]),
        region(LandmarkKind::LeftEyebrow, vec![point(0.30, 0.71), point(0.38, 0.72)]),
        region(LandmarkKind::RightEyebrow, vec![point(0.52, 0.72), point(0.60, 0.71)]),
        region(LandmarkKind::Nose, vec![point(0.45, 0.45)]),
    ];
    let inside = vec![
        point(0.30, 0.65),
        point(0.30, 0.72),
        point(0.60, 0.65),
        point(0.60, 0.72),
        point(0.45, 0.70),
    ];
    for degrees in [-89.0_f64, -45.0, -30.0, 30.0, 45.0, 89.0] {
        let face = face(
            bounds(0.2, 0.1, 0.5, 0.7),
            None,
            Some(degrees.to_radians()),
            landmarks.clone(),
        );
        let mut vertices = inside.clone();
        apply_yaw_visibility_warp(&face, &mut vertices);
        assert_eq!(vertices, inside);
    }
}

#[test]
fn strong_yaw_warps_only_the_self_occluded_mesh_side() {
    let landmarks = vec![
        region(LandmarkKind::FaceContour, vec![point(0.23, 0.55), point(0.45, 0.13)]),
        region(LandmarkKind::LeftEye, vec![point(0.35, 0.65)]),
        region(LandmarkKind::RightEye, vec![point(0.55, 0.65)]),
        region(LandmarkKind::Nose, vec![point(0.45, 0.45)]),
        region(LandmarkKind::OuterLips, vec![point(0.45, 0.30)]),
    ];
    let face = face(
        bounds(0.2, 0.1, 0.5, 0.7),
        None,
        Some(45.0_f64.to_radians()),
        landmarks,
    );
    let mut vertices = vec![point(0.67, 0.55), point(0.23, 0.55)];
    apply_yaw_visibility_warp(&face, &mut vertices);
    assert!(number(vertices[0].x) <= 0.531);
    assert!((number(vertices[1].x) - 0.23).abs() < 1e-12);

    let mut opposite_face = face;
    opposite_face.yaw_radians = Some(double((-45.0_f64).to_radians()));
    let mut opposite_vertices = vec![point(0.67, 0.55), point(0.23, 0.55)];
    apply_yaw_visibility_warp(&opposite_face, &mut opposite_vertices);
    assert!((number(opposite_vertices[0].x) - 0.67).abs() < 1e-12);
    assert!(number(opposite_vertices[1].x) >= 0.369);
}

#[test]
fn yaw_warp_preserves_eye_and_eyebrow_envelope_without_restoring_the_wing() {
    let landmarks = vec![
        region(LandmarkKind::FaceContour, vec![point(0.23, 0.55), point(0.45, 0.13)]),
        region(LandmarkKind::LeftEye, vec![point(0.31, 0.65), point(0.37, 0.66)]),
        region(LandmarkKind::RightEye, vec![point(0.53, 0.66), point(0.59, 0.65)]),
        region(LandmarkKind::LeftEyebrow, vec![point(0.30, 0.71), point(0.38, 0.72)]),
        region(LandmarkKind::RightEyebrow, vec![point(0.52, 0.72), point(0.60, 0.71)]),
        region(LandmarkKind::Nose, vec![point(0.45, 0.45)]),
        region(LandmarkKind::OuterLips, vec![point(0.45, 0.30)]),
    ];
    let mut face = face(
        bounds(0.2, 0.1, 0.5, 0.7),
        None,
        Some((-45.0_f64).to_radians()),
        landmarks,
    );

    let mut left_profile_vertices = vec![point(0.30, 0.71), point(0.23, 0.50)];
    apply_yaw_visibility_warp(&face, &mut left_profile_vertices);
    assert!((number(left_profile_vertices[0].x) - 0.30).abs() < 1e-12);
    assert!(number(left_profile_vertices[1].x) >= 0.36);

    face.yaw_radians = Some(double(45.0_f64.to_radians()));
    let mut right_profile_vertices = vec![point(0.60, 0.71), point(0.67, 0.50)];
    apply_yaw_visibility_warp(&face, &mut right_profile_vertices);
    assert!((number(right_profile_vertices[0].x) - 0.60).abs() < 1e-12);
    assert!(number(right_profile_vertices[1].x) <= 0.54);
}

#[test]
fn rolled_forehead_uses_temples_instead_of_wide_jaw_points() {
    let angle = 30.0_f64.to_radians();
    let horizontal = (angle.cos(), angle.sin());
    let vertical = (-angle.sin(), angle.cos());
    let origin = (0.5, 0.57);
    let offset = |across: f64, down: f64| {
        point(
            origin.0 + horizontal.0 * across - vertical.0 * down,
            origin.1 + horizontal.1 * across - vertical.1 * down,
        )
    };
    let landmarks = vec![
        region(
            LandmarkKind::FaceContour,
            vec![
                offset(-0.16, 0.0),
                offset(-0.28, 0.24),
                offset(0.0, 0.40),
                offset(0.28, 0.24),
                offset(0.16, 0.0),
            ],
        ),
        region(LandmarkKind::LeftEye, vec![offset(-0.08, 0.0)]),
        region(LandmarkKind::RightEye, vec![offset(0.08, 0.0)]),
    ];
    let face = face(bounds(0.2, 0.1, 0.6, 0.8), Some(angle), Some(0.0), landmarks);
    let mut forehead = Vec::new();
    add_forehead_mesh_vertices(&face, &mut forehead);
    assert!(!forehead.is_empty());
    assert!(forehead.iter().all(|point| {
        let projection = (number(point.x) - origin.0) * horizontal.0
            + (number(point.y) - origin.1) * horizontal.1;
        (-0.161..=0.161).contains(&projection)
    }));
    let maximum_height = forehead
        .iter()
        .map(|point| {
            (number(point.x) - origin.0) * vertical.0 + (number(point.y) - origin.1) * vertical.1
        })
        .fold(0.0_f64, f64::max);
    assert!(maximum_height <= 0.40 * 0.62 + 1e-12);
}

fn landmarks_point_count(face: &FaceGeometry) -> usize {
    face.landmarks.iter().map(|region| region.points.len()).sum()
}

#[test]
fn close_vertices_become_one() {
    let mut vertices = vec![point(0.1, 0.1), point(0.1001, 0.1), point(0.5, 0.5), point(0.1, 0.1)];
    deduplicate_mesh_vertices(&mut vertices, double(1.0), double(1.0));
    assert_eq!(vertices, vec![point(0.1, 0.1), point(0.5, 0.5)]);
}

#[test]
fn rays_end_at_the_edges_of_a_box() {
    let bounds = bounds(0.0, 0.0, 1.0, 2.0);
    assert_eq!(
        ray_distance_to_bounds(point(0.5, 0.5), point(0.0, 1.0), bounds),
        Some(double(1.5))
    );
    assert_eq!(
        ray_distance_to_bounds(point(0.25, 0.5), point(-1.0, 0.0), bounds),
        Some(double(0.25))
    );
    assert_eq!(ray_distance_to_bounds(point(0.5, 0.5), point(0.0, 0.0), bounds), None);
}

#[test]
fn refinement_shortens_edges_and_ends() {
    let bounds = bounds(0.0, 0.0, 1.0, 1.0);
    let mut vertices = vec![point(0.0, 0.0), point(0.4, 0.0), point(0.0, 0.4)];
    interpolate_uniform_mesh(&mut vertices, bounds);
    assert!(vertices.len() > 20);
    assert!(vertices.len() <= 600);
    for t in delaunay_triangles(&vertices) {
        for (left, right) in [(t.a, t.b), (t.b, t.c), (t.c, t.a)] {
            assert!(number(vertices[left].distance(vertices[right])) <= 0.075);
        }
    }
    let mut few = vec![point(0.0, 0.0), point(1.0, 0.0)];
    interpolate_uniform_mesh(&mut few, bounds);
    assert_eq!(few.len(), 2);
}

#[test]
fn eyes_and_mouth_stay_open() {
    let square = |x: f64, y: f64| {
        vec![point(x, y), point(x + 0.1, y), point(x + 0.1, y + 0.1), point(x, y + 0.1)]
    };
    let landmarks = vec![
        region(
            LandmarkKind::FaceContour,
            vec![point(0.0, 0.6), point(0.2, 0.1), point(0.5, 0.0), point(0.8, 0.1), point(1.0, 0.6)],
        ),
        region(LandmarkKind::LeftEye, square(0.2, 0.6)),
        region(LandmarkKind::RightEye, square(0.7, 0.6)),
        region(LandmarkKind::InnerLips, square(0.45, 0.2)),
    ];
    let face = face(bounds(0.0, 0.0, 1.0, 1.0), None, None, landmarks);
    let mesh = polygon_face_mesh(&face).unwrap();
    assert!(mesh
        .triangles
        .iter()
        .all(|t| !triangle_is_feature_hole(&face, &mesh.vertices, *t)));
    let eye = vec![point(0.21, 0.61), point(0.29, 0.61), point(0.25, 0.69)];
    assert!(triangle_is_feature_hole(&face, &eye, Triangle { a: 0, b: 1, c: 2 }));
    assert!(polygon_face_mesh(&self::face(bounds(0.0, 0.0, 0.0, 1.0), None, None, Vec::new())).is_none());
}

#[test]
fn points_are_in_polygons_or_not() {
    let square = vec![point(0.0, 0.0), point(1.0, 0.0), point(1.0, 1.0), point(0.0, 1.0)];
    assert!(point_in_polygon(point(0.5, 0.5), &square));
    assert!(!point_in_polygon(point(1.5, 0.5), &square));
    assert!(!point_in_polygon(point(0.5, 0.5), &square[..2].to_vec()));
}

#[test]
fn circles_pass_through_their_corners() {
    let (a, b, c) = (point(0.0, 0.0), point(2.0, 0.0), point(0.0, 2.0));
    assert_eq!(number(triangle_area(a, b, c)).abs(), 4.0);
    let circle = circumcircle(a, b, c);
    assert!(holds(circle, point(1.5, 1.5)));
    assert!(!holds(circle, point(3.0, 3.0)));
    assert!(circumcircle(a, point(1.0, 1.0), point(2.0, 2.0)).is_none());
}

#[test]
fn the_axis_is_interpolated_between_its_points() {
    let axis = vec![point(0.2, 0.0), point(0.4, 1.0)];
    assert_eq!(interpolate_axis_x(&axis, double(-1.0)), double(0.2));
    assert!((number(interpolate_axis_x(&axis, double(0.5))) - 0.3).abs() < 1e-12);
    assert_eq!(interpolate_axis_x(&axis, double(2.0)), double(0.4));
    let bare = face(bounds(0.2, 0.1, 0.5, 0.7), None, Some(1.0), Vec::new());
    let mut vertices = vec![point(0.9, 0.5)];
    let axis_points = yaw_visibility_axis(&bare).len();
    apply_yaw_visibility_warp(&bare, &mut vertices);
    if axis_points < 2 {
        assert_eq!(vertices, vec![point(0.9, 0.5)]);
    }
}

#[test]
fn canonical_coordinates_undo_roll() {
    let bounds = bounds(0.0, 0.0, 1.0, 1.0);
    let upright = SinCos { sin: double(0.0), cos: double(1.0) };
    let place = canonical_face_coordinates(bounds, upright, point(0.5 + 0.54, 0.5));
    assert!((number(place.x) - 1.0).abs() < 1e-12);
    assert!(number(place.y).abs() < 1e-12);
    let quarter = SinCos { sin: double(1.0), cos: double(0.0) };
    let turned = canonical_face_coordinates(bounds, quarter, point(0.5, 0.5 + 0.54));
    assert!((number(turned.x) - 1.0).abs() < 1e-12);
}

#[test]
fn surfaces_that_face_the_light_are_brighter() {
    let bounds = bounds(0.0, 0.0, 1.0, 1.0);
    let upright = SinCos { sin: double(0.0), cos: double(1.0) };
    let vertices = vec![point(0.3, 0.3), point(0.7, 0.3), point(0.5, 0.7)];
    let t = Triangle { a: 0, b: 1, c: 2 };
    let level = vec![double(0.5), double(0.5), double(0.5)];
    let lit = triangle_surface_brightness(bounds, upright, upright, upright, &vertices, &level, t);
    let (sin, cos) = 80.0_f64.to_radians().sin_cos();
    let aside = SinCos { sin: double(sin), cos: double(cos) };
    let unlit = triangle_surface_brightness(bounds, aside, upright, upright, &vertices, &level, t);
    assert!(number(lit) > number(unlit));
    let expected = 0.18 + (0.12 + 0.954 * 0.55) + 0.5 * 0.10;
    assert!((number(lit) - expected).abs() < 1e-9);
    let flat = vec![point(0.3, 0.3), point(0.3, 0.3), point(0.3, 0.3)];
    let nothing = triangle_surface_brightness(bounds, upright, upright, upright, &flat, &level, t);
    assert_eq!(nothing, double(0.35));
}

#[test]
fn shared_edges_take_the_mean_brightness() {
    let triangles = vec![Triangle { a: 0, b: 1, c: 2 }, Triangle { a: 2, b: 1, c: 3 }];
    let edges = shade_edges(&triangles, &vec![double(0.0), double(1.0)], 8);
    assert_eq!(edges.len(), 5);
    for edge in &edges {
        let expected = match (edge.left, edge.right) {
            (0, 1) | (0, 2) => 0,
            (1, 2) => 4,
            _ => 7,
        };
        assert_eq!(edge.band, expected);
    }
    assert_eq!(mesh_edges(&triangles).len(), 5);
}
