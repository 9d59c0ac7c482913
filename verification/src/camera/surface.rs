//! The whole mesh of a face: vertices between the landmarks, and triangles without the eyes and the
//! mouth.

use vstd::prelude::*;
use crate::camera::mesh;
use crate::camera::mesh::{
    add_forehead_mesh_vertices, collect_vertices, deduplicate_mesh_vertices, half, is_measurable,
};
use crate::camera::triangulation;
use crate::camera::triangulation::{delaunay_triangles, note, point_in_polygon, Edge, Triangle};
use crate::camera::warp;
use crate::camera::warp::apply_yaw_visibility_warp;
use crate::double::Double;
use crate::model;
use crate::model::{
    epsilon, region, BoundingBox, FaceGeometry, FaceView, LandmarkKind, Point, RegionView,
};

verus! {

/// How many vertices refinement adds up to.
pub const MAX_MESH_VERTICES: usize = 600;

/// How often a mesh is refined at most.
pub const MAX_REFINEMENT_PASSES: usize = 6;

/// A point by its place in a box.
#[verifier::allow_in_spec]
pub fn local_point(point: Point, bounds: BoundingBox) -> Point
    returns
        (Point {
            x: (point.x - bounds.x) / bounds.width,
            y: (point.y - bounds.y) / bounds.height,
        }),
{
    Point { x: (point.x - bounds.x) / bounds.width, y: (point.y - bounds.y) / bounds.height }
}

/// Points by their places in a box.
pub open spec fn local_points(points: Seq<Point>, bounds: BoundingBox) -> Seq<Point> {
    points.map_values(|point: Point| local_point(point, bounds))
}

fn localize(points: &Vec<Point>, bounds: BoundingBox) -> (r: Vec<Point>)
    ensures
        r@ == local_points(points@, bounds),
{
    let mut local: Vec<Point> = Vec::new();
    let mut i: usize = 0;
    while i < points.len()
        invariant
            i <= points.len(),
            local.len() == i,
            forall|k: int| 0 <= k < i ==> #[trigger] local[k] == local_point(points[k], bounds),
        decreases points.len() - i,
    {
        local.push(local_point(points[i], bounds));
        i += 1;
    }
    assert(local@ =~= local_points(points@, bounds));
    local
}

/// An edge is noted where it is longer than it should be.
pub open spec fn noted_if_long(points: Seq<Point>, edges: Seq<Edge>, i: usize, j: usize) -> Seq<
    Edge,
> {
    if points[i as int].distance(points[j as int]).at_most(Double::ratio(75, 1000)) {
        edges
    } else {
        triangulation::spec_note(edges, i, j)
    }
}

/// The edges of the first `k` triangles that are longer than they should be.
pub open spec fn long_edges(points: Seq<Point>, triangles: Seq<Triangle>, k: int) -> Seq<Edge>
    decreases k,
{
    if k <= 0 {
        Seq::empty()
    } else {
        let t = triangles[k - 1];
        noted_if_long(
            points,
            noted_if_long(
                points,
                noted_if_long(points, long_edges(points, triangles, k - 1), t.a, t.b),
                t.b,
                t.c,
            ),
            t.c,
            t.a,
        )
    }
}

/// The edges are between the first `count` points.
spec fn are_within(edges: Seq<Edge>, count: int) -> bool {
    forall|i: int| 0 <= i < edges.len() ==> (#[trigger] edges[i]).left < count && edges[i].right < count
}

proof fn lemma_noted_within(edges: Seq<Edge>, left: usize, right: usize, count: int)
    requires
        are_within(edges, count),
        left < count,
        right < count,
    ensures
        are_within(triangulation::noted(edges, left, right), count),
    decreases edges.len(),
{
    let result = triangulation::noted(edges, left, right);
    if edges.len() > 0 && triangulation::edge_before(left, right, edges.last()) {
        let rest = edges.drop_last();
        lemma_noted_within(rest, left, right, count);
        assert forall|i: int| 0 <= i < result.len() implies (#[trigger] result[i]).left < count
            && result[i].right < count by {
            if i < result.len() - 1 {
                assert(result[i] == triangulation::noted(rest, left, right)[i]);
            } else {
                assert(result[i] == edges[edges.len() - 1]);
            }
        }
    } else {
        assert forall|i: int| 0 <= i < result.len() implies (#[trigger] result[i]).left < count
            && result[i].right < count by {
            if i < edges.len() - 1 {
                assert(result[i] == edges[i]);
            } else if i < edges.len() {
                assert(edges[i].left < count);
            }
        }
    }
}

fn note_if_long(points: &Vec<Point>, edges: &mut Vec<Edge>, i: usize, j: usize)
    requires
        i < points.len(),
        j < points.len(),
        are_within(old(edges)@, points.len() as int),
    ensures
        final(edges)@ == noted_if_long(points@, old(edges)@, i, j),
        are_within(final(edges)@, points.len() as int),
{
    proof {
        lemma_noted_within(edges@, i, j, points.len() as int);
        lemma_noted_within(edges@, j, i, points.len() as int);
    }
    if !points[i].distance(points[j]).at_most(Double::ratio(75, 1000)) {
        note(edges, i, j);
    }
}

fn find_long_edges(points: &Vec<Point>, triangles: &Vec<Triangle>) -> (r: Vec<Edge>)
    requires
        forall|i: int|
            0 <= i < triangles.len() ==> (#[trigger] triangles[i]).is_within(points.len() as int),
    ensures
        r@ == long_edges(points@, triangles@, triangles.len() as int),
        are_within(r@, points.len() as int),
{
    let mut edges: Vec<Edge> = Vec::new();
    let mut i: usize = 0;
    while i < triangles.len()
        invariant
            i <= triangles.len(),
            forall|k: int|
                0 <= k < triangles.len() ==> (#[trigger] triangles[k]).is_within(
                    points.len() as int,
                ),
            edges@ == long_edges(points@, triangles@, i as int),
            are_within(edges@, points.len() as int),
        decreases triangles.len() - i,
    {
        let t = triangles[i];
        assert(triangles[i as int].is_within(points.len() as int));
        note_if_long(points, &mut edges, t.a, t.b);
        note_if_long(points, &mut edges, t.b, t.c);
        note_if_long(points, &mut edges, t.c, t.a);
        i += 1;
    }
    edges
}

/// The middle of an edge.
#[verifier::allow_in_spec]
pub fn middle(a: Point, b: Point) -> Point
    returns
        (Point { x: half(a.x + b.x), y: half(a.y + b.y) }),
{
    Point { x: half(a.x + b.x), y: half(a.y + b.y) }
}

/// The middles of the first `count` edges.
pub open spec fn middles(points: Seq<Point>, edges: Seq<Edge>, count: nat) -> Seq<Point> {
    Seq::new(
        count,
        |i: int| middle(points[edges[i].left as int], points[edges[i].right as int]),
    )
}

/// Vertices after one refinement: nothing where no edge is too long or there are enough vertices.
pub open spec fn refined_once(vertices: Seq<Point>, bounds: BoundingBox) -> Option<Seq<Point>> {
    let local = local_points(vertices, bounds);
    let triangles = triangulation::spec_delaunay(local);
    let edges = long_edges(local, triangles, triangles.len() as int);
    if edges.len() == 0 || vertices.len() >= MAX_MESH_VERTICES {
        None
    } else {
        let room = (MAX_MESH_VERTICES - vertices.len()) as nat;
        let count = if edges.len() < room {
            edges.len()
        } else {
            room
        };
        Some(
            mesh::deduplicated(
                vertices + middles(vertices, edges, count),
                bounds.width,
                bounds.height,
            ),
        )
    }
}

/// Vertices after up to `passes` refinements.
pub open spec fn refined(vertices: Seq<Point>, bounds: BoundingBox, passes: int) -> Seq<Point>
    decreases passes,
{
    if passes <= 0 {
        vertices
    } else {
        match refined_once(vertices, bounds) {
            Some(next) => refined(next, bounds, passes - 1),
            None => vertices,
        }
    }
}

/// Whether a box has a width and a height.
#[verifier::allow_in_spec]
pub fn is_flat(bounds: BoundingBox) -> bool
    returns
        bounds.width.at_most(epsilon()) || bounds.height.at_most(epsilon()),
{
    bounds.width.at_most(epsilon()) || bounds.height.at_most(epsilon())
}

/// Vertices with the middles of all edges that are too long, as far as there is room.
pub open spec fn interpolated(vertices: Seq<Point>, bounds: BoundingBox) -> Seq<Point> {
    if vertices.len() < 3 || is_flat(bounds) {
        vertices
    } else {
        refined(vertices, bounds, MAX_REFINEMENT_PASSES as int)
    }
}

fn refine_once(vertices: &Vec<Point>, bounds: BoundingBox) -> (r: Option<Vec<Point>>)
    requires
        vertices.len() <= usize::MAX - 3,
    ensures
        match r {
            Some(next) => refined_once(vertices@, bounds) == Some(next@) && next.len()
                <= MAX_MESH_VERTICES,
            None => refined_once(vertices@, bounds) is None,
        },
{
    let local = localize(vertices, bounds);
    let triangles = delaunay_triangles(&local);
    let edges = find_long_edges(&local, &triangles);
    if edges.len() == 0 || vertices.len() >= MAX_MESH_VERTICES {
        return None;
    }
    let room: usize = MAX_MESH_VERTICES - vertices.len();
    let count: usize = if edges.len() < room {
        edges.len()
    } else {
        room
    };
    let ghost added = middles(vertices@, edges@, count as nat);
    let mut next = vertices.clone();
    assert(next@ =~= vertices@ + added.take(0));
    let mut i: usize = 0;
    while i < count
        invariant
            i <= count <= edges.len(),
            are_within(edges@, vertices.len() as int),
            added == middles(vertices@, edges@, count as nat),
            next@ == vertices@ + added.take(i as int),
        decreases count - i,
    {
        let edge = edges[i];
        assert(edges[i as int].left < vertices.len());
        next.push(middle(vertices[edge.left], vertices[edge.right]));
        assert(next@ =~= vertices@ + added.take(i + 1));
        i += 1;
    }
    assert(added.take(i as int) =~= added);
    deduplicate_mesh_vertices(&mut next, bounds.width, bounds.height);
    Some(next)
}

/// Adds the middles of all edges that are too long, as far as there is room.
pub fn interpolate_uniform_mesh(vertices: &mut Vec<Point>, bounds: BoundingBox)
    requires
        old(vertices).len() <= usize::MAX - 3,
    ensures
        final(vertices)@ == interpolated(old(vertices)@, bounds),
        final(vertices).len() <= old(vertices).len() || final(vertices).len() <= MAX_MESH_VERTICES,
{
    if vertices.len() < 3 || is_flat(bounds) {
        return;
    }
    let mut passes: usize = MAX_REFINEMENT_PASSES;
    while passes > 0
        invariant
            passes <= MAX_REFINEMENT_PASSES,
            vertices.len() <= usize::MAX - 3,
            vertices.len() <= old(vertices).len() || vertices.len() <= MAX_MESH_VERTICES,
            old(vertices).len() >= 3,
            !is_flat(bounds),
            refined(old(vertices)@, bounds, MAX_REFINEMENT_PASSES as int) == refined(
                vertices@,
                bounds,
                passes as int,
            ),
        decreases passes,
    {
        match refine_once(vertices, bounds) {
            Some(next) => {
                *vertices = next;
            },
            None => {
                return;
            },
        }
        passes -= 1;
    }
}

/// The middle of a triangle.
pub open spec fn spec_triangle_center(vertices: Seq<Point>, t: Triangle) -> Point {
    let three = Double::integer(3);
    let zero = Double::integer(0);
    let a = vertices[t.a as int];
    let b = vertices[t.b as int];
    let c = vertices[t.c as int];
    Point {
        x: zero + a.x / three + b.x / three + c.x / three,
        y: zero + a.y / three + b.y / three + c.y / three,
    }
}

/// Whether a point is in the first region of a kind.
pub open spec fn is_in_region(point: Point, landmarks: Seq<RegionView>, kind: LandmarkKind) -> bool {
    match model::spec_region(landmarks, kind) {
        Some(points) => triangulation::spec_point_in_polygon(point, points),
        None => false,
    }
}

/// Whether a triangle is in an eye or in the mouth, which stay open.
pub open spec fn is_hole(face: FaceView, vertices: Seq<Point>, t: Triangle) -> bool {
    let center = spec_triangle_center(vertices, t);
    is_in_region(center, face.landmarks, LandmarkKind::LeftEye) || is_in_region(
        center,
        face.landmarks,
        LandmarkKind::RightEye,
    ) || is_in_region(center, face.landmarks, LandmarkKind::InnerLips)
}

fn find_in_region(point: Point, face: &FaceGeometry, kind: LandmarkKind) -> (r: bool)
    ensures
        r == is_in_region(point, face@.landmarks, kind),
{
    match region(&face.landmarks, kind) {
        Some(points) => point_in_polygon(point, points),
        None => false,
    }
}

pub fn triangle_is_feature_hole(face: &FaceGeometry, vertices: &Vec<Point>, t: Triangle) -> (r: bool)
    requires
        t.is_within(vertices.len() as int),
    ensures
        r == is_hole(face@, vertices@, t),
{
    let three = Double::integer(3);
    let zero = Double::integer(0);
    let a = vertices[t.a];
    let b = vertices[t.b];
    let c = vertices[t.c];
    let center = Point {
        x: zero + a.x / three + b.x / three + c.x / three,
        y: zero + a.y / three + b.y / three + c.y / three,
    };
    find_in_region(center, face, LandmarkKind::LeftEye) || find_in_region(
        center,
        face,
        LandmarkKind::RightEye,
    ) || find_in_region(center, face, LandmarkKind::InnerLips)
}

/// The first `k` triangles without those in an eye or in the mouth.
pub open spec fn solid(face: FaceView, vertices: Seq<Point>, triangles: Seq<Triangle>, k: int) -> Seq<
    Triangle,
>
    decreases k,
{
    if k <= 0 {
        Seq::empty()
    } else if is_hole(face, vertices, triangles[k - 1]) {
        solid(face, vertices, triangles, k - 1)
    } else {
        solid(face, vertices, triangles, k - 1).push(triangles[k - 1])
    }
}

/// A mesh over a face.
#[derive(Debug)]
pub struct PolygonFaceMesh {
    pub vertices: Vec<Point>,
    pub triangles: Vec<Triangle>,
}

/// The content of a mesh.
#[verifier::ext_equal]
pub struct MeshView {
    pub vertices: Seq<Point>,
    pub triangles: Seq<Triangle>,
}

impl View for PolygonFaceMesh {
    type V = MeshView;

    open spec fn view(&self) -> MeshView {
        MeshView { vertices: self.vertices@, triangles: self.triangles@ }
    }
}

impl MeshView {
    /// Every triangle has three different corners among the vertices.
    pub open spec fn is_sound(self) -> bool {
        forall|i: int|
            0 <= i < self.triangles.len() ==> (#[trigger] self.triangles[i]).is_within(
                self.vertices.len() as int,
            ) && self.triangles[i].is_proper()
    }
}

/// The vertices of the mesh of a face.
pub open spec fn mesh_vertices(face: FaceView) -> Seq<Point> {
    let width = face.bounding_box.width;
    let height = face.bounding_box.height;
    let landmarks = mesh::deduplicated(mesh::base_vertices(face), width, height);
    let turned = mesh::deduplicated(
        warp::warped(face, landmarks + mesh::forehead(face)),
        width,
        height,
    );
    mesh::deduplicated(interpolated(turned, face.bounding_box), width, height)
}

/// The mesh of a face: nothing where its box is flat, or where there are too few vertices or no
/// triangles.
pub open spec fn spec_polygon_face_mesh(face: FaceView) -> Option<MeshView> {
    let vertices = mesh_vertices(face);
    let all = triangulation::spec_delaunay(local_points(vertices, face.bounding_box));
    let triangles = solid(face, vertices, all, all.len() as int);
    if is_flat(face.bounding_box) || vertices.len() < 3 || triangles.len() == 0 {
        None
    } else {
        Some(MeshView { vertices, triangles })
    }
}

/// The mesh of a face: its landmarks, a forehead, and points between them, without the eyes and
/// the mouth.
pub fn polygon_face_mesh(face: &FaceGeometry) -> (r: Option<PolygonFaceMesh>)
    requires
        mesh::base_vertices(face@).len() <= usize::MAX - 51,
        is_flat(face.bounding_box) || is_measurable(face.bounding_box),
    ensures
        match r {
            Some(found) => spec_polygon_face_mesh(face@) == Some(found@) && found@.is_sound(),
            None => spec_polygon_face_mesh(face@) is None,
        },
{
    let bounds = face.bounding_box;
    if is_flat(bounds) {
        return None;
    }
    let mut vertices = collect_vertices(face);
    deduplicate_mesh_vertices(&mut vertices, bounds.width, bounds.height);
    proof {
        mesh::lemma_forehead_count(face@);
    }
    add_forehead_mesh_vertices(face, &mut vertices);
    apply_yaw_visibility_warp(face, &mut vertices);
    deduplicate_mesh_vertices(&mut vertices, bounds.width, bounds.height);
    interpolate_uniform_mesh(&mut vertices, bounds);
    deduplicate_mesh_vertices(&mut vertices, bounds.width, bounds.height);
    if vertices.len() < 3 {
        return None;
    }
    let local = localize(&vertices, bounds);
    let all = delaunay_triangles(&local);
    let mut triangles: Vec<Triangle> = Vec::new();
    let mut i: usize = 0;
    while i < all.len()
        invariant
            i <= all.len(),
            forall|k: int|
                0 <= k < all.len() ==> (#[trigger] all[k]).is_within(vertices.len() as int)
                    && all[k].is_proper(),
            triangles@ == solid(face@, vertices@, all@, i as int),
            forall|k: int|
                0 <= k < triangles.len() ==> (#[trigger] triangles[k]).is_within(
                    vertices.len() as int,
                ) && triangles[k].is_proper(),
        decreases all.len() - i,
    {
        assert(all[i as int].is_within(vertices.len() as int));
        if !triangle_is_feature_hole(face, &vertices, all[i]) {
            triangles.push(all[i]);
        }
        i += 1;
    }
    if triangles.len() == 0 {
        return None;
    }
    Some(PolygonFaceMesh { vertices, triangles })
}

proof fn lemma_solid(
    face: FaceView,
    vertices: Seq<Point>,
    triangles: Seq<Triangle>,
    k: int,
    i: int,
)
    requires
        0 <= i < solid(face, vertices, triangles, k).len(),
    ensures
        !is_hole(face, vertices, solid(face, vertices, triangles, k)[i]),
    decreases k,
{
    if k > 0 && i < solid(face, vertices, triangles, k - 1).len() {
        lemma_solid(face, vertices, triangles, k - 1, i);
    }
}

/// The eyes and the mouth stay open: no triangle of a mesh is in one of them.
pub proof fn law_features_stay_open(face: FaceView, i: int)
    requires
        spec_polygon_face_mesh(face) is Some,
        0 <= i < (spec_polygon_face_mesh(face)->0).triangles.len(),
    ensures
        !is_hole(
            face,
            (spec_polygon_face_mesh(face)->0).vertices,
            (spec_polygon_face_mesh(face)->0).triangles[i],
        ),
{
    let vertices = mesh_vertices(face);
    let all = triangulation::spec_delaunay(local_points(vertices, face.bounding_box));
    lemma_solid(face, vertices, all, all.len() as int, i);
}

proof fn lemma_solid_holds(
    face: FaceView,
    vertices: Seq<Point>,
    triangles: Seq<Triangle>,
    k: int,
    t: Triangle,
)
    requires
        0 <= k <= triangles.len(),
    ensures
        solid(face, vertices, triangles, k).contains(t) <==> !is_hole(face, vertices, t) && exists|
            i: int,
        |
            0 <= i < k && #[trigger] triangles[i] == t,
    decreases k,
{
    if k > 0 {
        lemma_solid_holds(face, vertices, triangles, k - 1, t);
        let before = solid(face, vertices, triangles, k - 1);
        let after = solid(face, vertices, triangles, k);
        if before.contains(t) {
            let i = choose|i: int| 0 <= i < before.len() && before[i] == t;
            assert(after[i] == t);
        }
        if !is_hole(face, vertices, triangles[k - 1]) {
            assert(after[before.len() as int] == triangles[k - 1]);
        }
        if after.contains(t) {
            let i = choose|i: int| 0 <= i < after.len() && after[i] == t;
            if i < before.len() {
                assert(before[i] == t);
            }
        }
    }
}

/// A region is an outline that a mesh leaves open: the first one of an eye or of the inner lips.
pub open spec fn is_opening(landmarks: Seq<RegionView>, i: int) -> bool {
    &&& 0 <= i < landmarks.len()
    &&& landmarks[i].kind == LandmarkKind::LeftEye || landmarks[i].kind == LandmarkKind::RightEye
        || landmarks[i].kind == LandmarkKind::InnerLips
    &&& forall|j: int| 0 <= j < i ==> (#[trigger] landmarks[j]).kind != landmarks[i].kind
}

/// A mesh has just the triangles between its vertices that are not in the left eye, the right eye
/// or the open mouth: none of which the middle is in one of these outlines, and all others.
pub proof fn law_only_eyes_and_mouth_are_open(face: FaceView, t: Triangle)
    requires
        spec_polygon_face_mesh(face) is Some,
    ensures
        ({
            let found = spec_polygon_face_mesh(face)->0;
            let three = Double::integer(3);
            let a = found.vertices[t.a as int];
            let b = found.vertices[t.b as int];
            let c = found.vertices[t.c as int];
            let middle = Point {
                x: Double::integer(0) + a.x / three + b.x / three + c.x / three,
                y: Double::integer(0) + a.y / three + b.y / three + c.y / three,
            };
            found.triangles.contains(t) <==> triangulation::spec_delaunay(
                local_points(found.vertices, face.bounding_box),
            ).contains(t) && forall|i: int| #[trigger]
                is_opening(face.landmarks, i) ==> !triangulation::spec_point_in_polygon(
                    middle,
                    face.landmarks[i].points,
                )
        }),
{
    let vertices = mesh_vertices(face);
    let all = triangulation::spec_delaunay(local_points(vertices, face.bounding_box));
    lemma_solid_holds(face, vertices, all, all.len() as int, t);
    model::law_first_region_counts(face.landmarks, LandmarkKind::LeftEye);
    model::law_first_region_counts(face.landmarks, LandmarkKind::RightEye);
    model::law_first_region_counts(face.landmarks, LandmarkKind::InnerLips);
    let center = spec_triangle_center(vertices, t);
    if all.contains(t) {
        let i = choose|i: int| 0 <= i < all.len() && all[i] == t;
        assert(all[i] == t);
    }
    if is_hole(face, vertices, t) {
        let kind = if is_in_region(center, face.landmarks, LandmarkKind::LeftEye) {
            LandmarkKind::LeftEye
        } else if is_in_region(center, face.landmarks, LandmarkKind::RightEye) {
            LandmarkKind::RightEye
        } else {
            LandmarkKind::InnerLips
        };
        let points = model::spec_region(face.landmarks, kind)->0;
        let i = choose|i: int|
            0 <= i < face.landmarks.len() && (#[trigger] face.landmarks[i]).kind == kind
                && face.landmarks[i].points == points && forall|j: int|
                0 <= j < i ==> (#[trigger] face.landmarks[j]).kind != kind;
        assert(is_opening(face.landmarks, i));
    } else {
        assert forall|i: int| #[trigger]
            is_opening(face.landmarks, i) implies !triangulation::spec_point_in_polygon(
            center,
            face.landmarks[i].points,
        ) by {
            let kind = face.landmarks[i].kind;
            model::law_first_region_counts(face.landmarks, kind);
            assert(!is_in_region(center, face.landmarks, kind));
        }
    }
}

/// No edge of a triangle is longer than it should be.
pub open spec fn is_fine(points: Seq<Point>, t: Triangle) -> bool {
    let limit = Double::ratio(75, 1000);
    &&& points[t.a as int].distance(points[t.b as int]).at_most(limit)
    &&& points[t.b as int].distance(points[t.c as int]).at_most(limit)
    &&& points[t.c as int].distance(points[t.a as int]).at_most(limit)
}

proof fn lemma_noted_is_there(edges: Seq<Edge>, left: usize, right: usize)
    ensures
        triangulation::noted(edges, left, right).len() > 0,
        triangulation::noted(edges, left, right).len() >= edges.len(),
    decreases edges.len(),
{
    if edges.len() > 0 && triangulation::edge_before(left, right, edges.last()) {
        lemma_noted_is_there(edges.drop_last(), left, right);
    }
}

proof fn lemma_noted_if_long(points: Seq<Point>, edges: Seq<Edge>, i: usize, j: usize)
    ensures
        noted_if_long(points, edges, i, j).len() >= edges.len(),
        noted_if_long(points, edges, i, j).len() == 0
            ==> points[i as int].distance(points[j as int]).at_most(Double::ratio(75, 1000)),
{
    lemma_noted_is_there(edges, i, j);
    lemma_noted_is_there(edges, j, i);
}

proof fn lemma_no_long_edge(points: Seq<Point>, triangles: Seq<Triangle>, k: int, i: int)
    requires
        0 <= i < k,
        long_edges(points, triangles, k).len() == 0,
    ensures
        is_fine(points, triangles[i]),
    decreases k,
{
    let t = triangles[k - 1];
    let before = long_edges(points, triangles, k - 1);
    let first = noted_if_long(points, before, t.a, t.b);
    let second = noted_if_long(points, first, t.b, t.c);
    lemma_noted_if_long(points, before, t.a, t.b);
    lemma_noted_if_long(points, first, t.b, t.c);
    lemma_noted_if_long(points, second, t.c, t.a);
    if i < k - 1 {
        lemma_no_long_edge(points, triangles, k - 1, i);
    }
}

/// Refinement ends when every triangle is small for the face: where it adds nothing although there
/// is room, no edge is longer than it should be.
pub proof fn law_triangles_are_small(vertices: Seq<Point>, bounds: BoundingBox, i: int)
    requires
        refined_once(vertices, bounds) is None,
        vertices.len() < MAX_MESH_VERTICES,
        0 <= i < triangulation::spec_delaunay(local_points(vertices, bounds)).len(),
    ensures
        is_fine(
            local_points(vertices, bounds),
            triangulation::spec_delaunay(local_points(vertices, bounds))[i],
        ),
{
    let local = local_points(vertices, bounds);
    let triangles = triangulation::spec_delaunay(local);
    lemma_no_long_edge(local, triangles, triangles.len() as int, i);
}

} // verus!
