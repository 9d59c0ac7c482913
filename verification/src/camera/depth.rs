//! The pseudo-depth of a face and how its mesh is shaded.
//!
//! Sines, cosines and exponentials come from the caller: this module says of what they are taken
//! and what is made of them.

use vstd::prelude::*;
use crate::camera::mesh::half;
use crate::camera::triangulation::Triangle;
use crate::double::Double;
use crate::face_id::capture;
use crate::face_id::capture::landmark_pitch_degrees;
use crate::model;
use crate::model::{
    epsilon, region_center, BoundingBox, FaceGeometry, FaceView, LandmarkKind, Point,
};

verus! {

/// The sine and the cosine of an angle.
#[derive(Clone, Copy, Debug, PartialEq, Eq, Structural)]
pub struct SinCos {
    pub sin: Double,
    pub cos: Double,
}

/// A direction or a place in space.
#[derive(Clone, Copy, Debug, PartialEq, Eq, Structural)]
pub struct Vector {
    pub x: Double,
    pub y: Double,
    pub z: Double,
}

/// The angles of a head in radians.
#[derive(Clone, Copy, Debug, PartialEq, Eq, Structural)]
pub struct HeadAngles {
    pub yaw: Double,
    pub pitch: Double,
    pub roll: Double,
}

/// A value, or zero where there is none.
#[verifier::allow_in_spec]
pub fn or_zero(value: Option<Double>) -> Double
    returns
        (match value {
            Some(value) => value,
            None => Double::integer(0),
        }),
{
    match value {
        Some(value) => value,
        None => Double::integer(0),
    }
}

/// The angles of a head: the pitch from landmarks where it is not known, and zero where nothing is.
pub open spec fn spec_head_angles(face: FaceView) -> HeadAngles {
    HeadAngles {
        yaw: or_zero(face.yaw_radians),
        pitch: match (face.pitch_radians, capture::spec_landmark_pitch_degrees(face)) {
            (Some(pitch), _) => pitch,
            (None, Some(degrees)) => degrees.to_radians(),
            (None, None) => Double::integer(0),
        },
        roll: or_zero(face.roll_radians),
    }
}

pub fn head_angles(face: &FaceGeometry) -> (r: HeadAngles)
    ensures
        r == spec_head_angles(face@),
{
    let pitch = match (face.pitch_radians, landmark_pitch_degrees(face)) {
        (Some(pitch), _) => pitch,
        (None, Some(degrees)) => degrees.to_radians(),
        (None, None) => Double::integer(0),
    };
    HeadAngles { yaw: or_zero(face.yaw_radians), pitch, roll: or_zero(face.roll_radians) }
}

/// A point by its place in a box that is rolled with the face, the middle at zero and the edge of
/// the face near one.
pub open spec fn spec_canonical_face_coordinates(
    bounds: BoundingBox,
    roll: SinCos,
    point: Point,
) -> Point {
    let x = point.x - (bounds.x + half(bounds.width));
    let y = point.y - (bounds.y + half(bounds.height));
    Point {
        x: (x * roll.cos + y * roll.sin) / (bounds.width * Double::ratio(54, 100)).max(epsilon()),
        y: (x.negated() * roll.sin + y * roll.cos) / (bounds.height * Double::ratio(58, 100)).max(
            epsilon(),
        ),
    }
}

pub fn canonical_face_coordinates(bounds: BoundingBox, roll: SinCos, point: Point) -> (r: Point)
    ensures
        r == spec_canonical_face_coordinates(bounds, roll, point),
{
    let x = point.x - (bounds.x + half(bounds.width));
    let y = point.y - (bounds.y + half(bounds.height));
    Point {
        x: (x * roll.cos + y * roll.sin) / (bounds.width * Double::ratio(54, 100)).max(epsilon()),
        y: (x.negated() * roll.sin + y * roll.cos) / (bounds.height * Double::ratio(58, 100)).max(
            epsilon(),
        ),
    }
}

/// What the weight of a feature at a point is the exponential of: nothing where the feature is
/// missing or has no extent.
#[verifier::allow_in_spec]
pub fn feature_exponent(
    point: Point,
    center: Option<Point>,
    radius_x: Double,
    radius_y: Double,
) -> Option<Double>
    returns
        (match center {
            Some(center) => if radius_x.at_most(epsilon()) || radius_y.at_most(epsilon()) {
                None
            } else {
                let x = (point.x - center.x) / radius_x;
                let y = (point.y - center.y) / radius_y;
                Some(Double::ratio(1, 2).negated() * (x * x + y * y))
            },
            None => None,
        }),
{
    match center {
        Some(center) => {
            if radius_x.at_most(epsilon()) || radius_y.at_most(epsilon()) {
                None
            } else {
                let x = (point.x - center.x) / radius_x;
                let y = (point.y - center.y) / radius_y;
                Some(Double::ratio(1, 2).negated() * (x * x + y * y))
            }
        },
        None => None,
    }
}

/// Something of each feature of a face.
#[derive(Clone, Copy, Debug, PartialEq, Eq, Structural)]
pub struct Features {
    pub nose: Option<Double>,
    pub mouth: Option<Double>,
    pub left_eye: Option<Double>,
    pub right_eye: Option<Double>,
}

/// What the weights of the features at a point are the exponentials of.
pub open spec fn spec_feature_exponents(face: FaceView, point: Point) -> Features {
    let width = face.bounding_box.width;
    let height = face.bounding_box.height;
    let eye_x = width * Double::ratio(16, 100);
    let eye_y = height * Double::ratio(10, 100);
    Features {
        nose: feature_exponent(
            point,
            model::spec_nose(face.landmarks),
            width * Double::ratio(15, 100),
            height * Double::ratio(20, 100),
        ),
        mouth: feature_exponent(
            point,
            model::spec_region_center(face.landmarks, LandmarkKind::OuterLips),
            width * Double::ratio(23, 100),
            height * Double::ratio(12, 100),
        ),
        left_eye: feature_exponent(
            point,
            model::spec_region_center(face.landmarks, LandmarkKind::LeftEye),
            eye_x,
            eye_y,
        ),
        right_eye: feature_exponent(
            point,
            model::spec_region_center(face.landmarks, LandmarkKind::RightEye),
            eye_x,
            eye_y,
        ),
    }
}

pub fn feature_exponents(face: &FaceGeometry, point: Point) -> (r: Features)
    ensures
        r == spec_feature_exponents(face@, point),
{
    let width = face.bounding_box.width;
    let height = face.bounding_box.height;
    let eye_x = width * Double::ratio(16, 100);
    let eye_y = height * Double::ratio(10, 100);
    Features {
        nose: feature_exponent(
            point,
            model::nose(&face.landmarks),
            width * Double::ratio(15, 100),
            height * Double::ratio(20, 100),
        ),
        mouth: feature_exponent(
            point,
            region_center(&face.landmarks, LandmarkKind::OuterLips),
            width * Double::ratio(23, 100),
            height * Double::ratio(12, 100),
        ),
        left_eye: feature_exponent(
            point,
            region_center(&face.landmarks, LandmarkKind::LeftEye),
            eye_x,
            eye_y,
        ),
        right_eye: feature_exponent(
            point,
            region_center(&face.landmarks, LandmarkKind::RightEye),
            eye_x,
            eye_y,
        ),
    }
}

/// The dome of a face at a place: smooth beyond the face's edge.
#[verifier::allow_in_spec]
pub fn dome(place: Point) -> Double
    returns
        Double::ratio(78, 100) / (Double::integer(1) + (place.x * place.x + place.y * place.y)
            * Double::ratio(115, 100)),
{
    Double::ratio(78, 100) / (Double::integer(1) + (place.x * place.x + place.y * place.y)
        * Double::ratio(115, 100))
}

/// The pseudo-depth of a point of a face: a dome, with the nose and the mouth in front and the eyes
/// recessed by the weights of the features.
pub open spec fn spec_pseudo_face_depth(
    bounds: BoundingBox,
    roll: SinCos,
    weights: Features,
    point: Point,
) -> Double {
    let base = dome(spec_canonical_face_coordinates(bounds, roll, point));
    let with_nose = match weights.nose {
        Some(weight) => base + Double::ratio(30, 100) * weight,
        None => base,
    };
    let with_mouth = match weights.mouth {
        Some(weight) => with_nose + Double::ratio(7, 100) * weight,
        None => with_nose,
    };
    let with_left = match weights.left_eye {
        Some(weight) => with_mouth - Double::ratio(6, 100) * weight,
        None => with_mouth,
    };
    let with_right = match weights.right_eye {
        Some(weight) => with_left - Double::ratio(6, 100) * weight,
        None => with_left,
    };
    if bounds.width.at_most(epsilon()) || bounds.height.at_most(epsilon()) {
        Double::integer(0)
    } else {
        with_right.clamp(Double::ratio(8, 100), Double::integer(1))
    }
}

pub fn pseudo_face_depth(bounds: BoundingBox, roll: SinCos, weights: Features, point: Point) -> (r:
    Double)
    ensures
        r == spec_pseudo_face_depth(bounds, roll, weights, point),
{
    if bounds.width.at_most(epsilon()) || bounds.height.at_most(epsilon()) {
        return Double::integer(0);
    }
    let mut depth = dome(canonical_face_coordinates(bounds, roll, point));
    if let Some(weight) = weights.nose {
        depth = depth + Double::ratio(30, 100) * weight;
    }
    if let Some(weight) = weights.mouth {
        depth = depth + Double::ratio(7, 100) * weight;
    }
    if let Some(weight) = weights.left_eye {
        depth = depth - Double::ratio(6, 100) * weight;
    }
    if let Some(weight) = weights.right_eye {
        depth = depth - Double::ratio(6, 100) * weight;
    }
    depth.clamp(Double::ratio(8, 100), Double::integer(1))
}

/// A point of a face in space.
pub open spec fn spec_canonical_face_position(
    bounds: BoundingBox,
    roll: SinCos,
    point: Point,
    depth: Double,
) -> Vector {
    let place = spec_canonical_face_coordinates(bounds, roll, point);
    Vector { x: place.x, y: place.y, z: depth * Double::ratio(46, 100) }
}

fn canonical_face_position(bounds: BoundingBox, roll: SinCos, point: Point, depth: Double) -> (r:
    Vector)
    ensures
        r == spec_canonical_face_position(bounds, roll, point, depth),
{
    let place = canonical_face_coordinates(bounds, roll, point);
    Vector { x: place.x, y: place.y, z: depth * Double::ratio(46, 100) }
}

impl Vector {
    #[verifier::allow_in_spec]
    pub fn minus(self, other: Vector) -> Vector
        returns
            (Vector { x: self.x - other.x, y: self.y - other.y, z: self.z - other.z }),
    {
        Vector { x: self.x - other.x, y: self.y - other.y, z: self.z - other.z }
    }

    /// A vector at right angles to two others.
    #[verifier::allow_in_spec]
    pub fn cross(self, other: Vector) -> Vector
        returns
            (Vector {
                x: self.y * other.z - self.z * other.y,
                y: self.z * other.x - self.x * other.z,
                z: self.x * other.y - self.y * other.x,
            }),
    {
        Vector {
            x: self.y * other.z - self.z * other.y,
            y: self.z * other.x - self.x * other.z,
            z: self.x * other.y - self.y * other.x,
        }
    }

    /// The same vector, or its opposite, whichever points to the front.
    #[verifier::allow_in_spec]
    pub fn frontward(self) -> Vector
        returns
            (if self.z.less(Double::integer(0)) {
                Vector { x: self.x.negated(), y: self.y.negated(), z: self.z.negated() }
            } else {
                self
            }),
    {
        if self.z.less(Double::integer(0)) {
            Vector { x: self.x.negated(), y: self.y.negated(), z: self.z.negated() }
        } else {
            self
        }
    }

    #[verifier::allow_in_spec]
    pub fn length(self) -> Double
        returns
            (self.x * self.x + self.y * self.y + self.z * self.z).sqrt(),
    {
        (self.x * self.x + self.y * self.y + self.z * self.z).sqrt()
    }

    #[verifier::allow_in_spec]
    pub fn divided(self, divisor: Double) -> Vector
        returns
            (Vector { x: self.x / divisor, y: self.y / divisor, z: self.z / divisor }),
    {
        Vector { x: self.x / divisor, y: self.y / divisor, z: self.z / divisor }
    }

    /// The vector turned by the yaw, the pitch and the roll of a head.
    pub open spec fn spec_rotated(self, yaw: SinCos, pitch: SinCos, roll: SinCos) -> Vector {
        let yawed = Vector {
            x: self.x * yaw.cos + self.z * yaw.sin,
            y: self.y,
            z: self.x.negated() * yaw.sin + self.z * yaw.cos,
        };
        let pitched = Vector {
            x: yawed.x,
            y: yawed.y * pitch.cos - yawed.z * pitch.sin,
            z: yawed.y * pitch.sin + yawed.z * pitch.cos,
        };
        Vector {
            x: pitched.x * roll.cos - pitched.y * roll.sin,
            y: pitched.x * roll.sin + pitched.y * roll.cos,
            z: pitched.z,
        }
    }

    pub fn rotated(self, yaw: SinCos, pitch: SinCos, roll: SinCos) -> (r: Vector)
        ensures
            r == self.spec_rotated(yaw, pitch, roll),
    {
        let yawed = Vector {
            x: self.x * yaw.cos + self.z * yaw.sin,
            y: self.y,
            z: self.x.negated() * yaw.sin + self.z * yaw.cos,
        };
        let pitched = Vector {
            x: yawed.x,
            y: yawed.y * pitch.cos - yawed.z * pitch.sin,
            z: yawed.y * pitch.sin + yawed.z * pitch.cos,
        };
        Vector {
            x: pitched.x * roll.cos - pitched.y * roll.sin,
            y: pitched.x * roll.sin + pitched.y * roll.cos,
            z: pitched.z,
        }
    }
}

/// How bright a surface is by its direction and its depth: lit from the upper left, and darker
/// where it turns away.
#[verifier::allow_in_spec]
pub fn surface_brightness(normal: Vector, average_depth: Double) -> Double
    returns
        ({
            let zero = Double::integer(0);
            let one = Double::integer(1);
            let diffuse = (normal.x * Double::ratio(24, 100).negated() + normal.y * Double::ratio(
                18,
                100,
            ) + normal.z * Double::ratio(954, 1000)).clamp(zero, one);
            let visibility = ((normal.z + Double::ratio(12, 100)) / Double::ratio(52, 100)).clamp(
                zero,
                one,
            );
            (Double::ratio(18, 100) + visibility * (Double::ratio(12, 100) + diffuse
                * Double::ratio(55, 100)) + average_depth * Double::ratio(10, 100)).clamp(zero, one)
        }),
{
    let zero = Double::integer(0);
    let one = Double::integer(1);
    let diffuse = (normal.x * Double::ratio(24, 100).negated() + normal.y * Double::ratio(18, 100)
        + normal.z * Double::ratio(954, 1000)).clamp(zero, one);
    let visibility = ((normal.z + Double::ratio(12, 100)) / Double::ratio(52, 100)).clamp(
        zero,
        one,
    );
    (Double::ratio(18, 100) + visibility * (Double::ratio(12, 100) + diffuse * Double::ratio(
        55,
        100,
    )) + average_depth * Double::ratio(10, 100)).clamp(zero, one)
}

/// How bright a triangle of a mesh is.
pub open spec fn spec_triangle_brightness(
    bounds: BoundingBox,
    yaw: SinCos,
    pitch: SinCos,
    roll: SinCos,
    vertices: Seq<Point>,
    depths: Seq<Double>,
    t: Triangle,
) -> Double {
    let a = t.a as int;
    let b = t.b as int;
    let c = t.c as int;
    let first = spec_canonical_face_position(bounds, roll, vertices[a], depths[a]);
    let second = spec_canonical_face_position(bounds, roll, vertices[b], depths[b]);
    let third = spec_canonical_face_position(bounds, roll, vertices[c], depths[c]);
    let normal = second.minus(first).cross(third.minus(first)).frontward();
    let length = normal.length();
    if length.at_most(epsilon()) {
        Double::ratio(35, 100)
    } else {
        surface_brightness(
            normal.divided(length).spec_rotated(yaw, pitch, roll),
            (depths[a] + depths[b] + depths[c]) / Double::integer(3),
        )
    }
}

pub fn triangle_surface_brightness(
    bounds: BoundingBox,
    yaw: SinCos,
    pitch: SinCos,
    roll: SinCos,
    vertices: &Vec<Point>,
    depths: &Vec<Double>,
    t: Triangle,
) -> (r: Double)
    requires
        t.is_within(vertices.len() as int),
        depths.len() == vertices.len(),
    ensures
        r == spec_triangle_brightness(bounds, yaw, pitch, roll, vertices@, depths@, t),
{
    let first = canonical_face_position(bounds, roll, vertices[t.a], depths[t.a]);
    let second = canonical_face_position(bounds, roll, vertices[t.b], depths[t.b]);
    let third = canonical_face_position(bounds, roll, vertices[t.c], depths[t.c]);
    let normal = second.minus(first).cross(third.minus(first)).frontward();
    let length = normal.length();
    if length.at_most(epsilon()) {
        return Double::ratio(35, 100);
    }
    surface_brightness(
        normal.divided(length).rotated(yaw, pitch, roll),
        (depths[t.a] + depths[t.b] + depths[t.c]) / Double::integer(3),
    )
}

/// The layer that a brightness is drawn in, the darkest one first.
pub open spec fn spec_shade_band(brightness: Double, layer_count: usize) -> usize {
    let last = (layer_count - 1) as usize;
    let band = (brightness.clamp(Double::integer(0), Double::integer(1)) * Double::integer(
        last as u64,
    )).round_magnitude();
    if layer_count <= 1 {
        0
    } else if band < last {
        band as usize
    } else {
        last
    }
}

pub fn shade_band(brightness: Double, layer_count: usize) -> (r: usize)
    ensures
        r == spec_shade_band(brightness, layer_count),
        layer_count > 0 ==> r < layer_count,
{
    if layer_count <= 1 {
        return 0;
    }
    let last: usize = layer_count - 1;
    let band: u64 = (brightness.clamp(Double::integer(0), Double::integer(1)) * Double::integer(
        last as u64,
    )).round_magnitude();
    if band < last as u64 {
        band as usize
    } else {
        last
    }
}

/// An edge with the brightness of the surfaces that it is shared by.
#[derive(Clone, Copy, Debug, PartialEq, Eq, Structural)]
pub struct LitEdge {
    pub left: usize,
    pub right: usize,
    pub sum: Double,
    pub count: u64,
}

/// A sorted list of edges with one surface more at an edge.
pub open spec fn lit(edges: Seq<LitEdge>, left: usize, right: usize, brightness: Double) -> Seq<
    LitEdge,
>
    decreases edges.len(),
{
    if edges.len() == 0 {
        seq![first_light(left, right, brightness)]
    } else {
        let last = edges.last();
        if left < last.left || (left == last.left && right < last.right) {
            lit(edges.drop_last(), left, right, brightness).push(last)
        } else if left == last.left && right == last.right {
            edges.drop_last().push(more_light(last, brightness))
        } else {
            edges.push(first_light(left, right, brightness))
        }
    }
}

/// An edge of one surface.
#[verifier::allow_in_spec]
pub fn first_light(left: usize, right: usize, brightness: Double) -> LitEdge
    returns
        (LitEdge { left, right, sum: Double::integer(0) + brightness, count: 1 }),
{
    LitEdge { left, right, sum: Double::integer(0) + brightness, count: 1 }
}

/// An edge with one surface more.
#[verifier::allow_in_spec]
pub fn more_light(edge: LitEdge, brightness: Double) -> LitEdge
    returns
        (LitEdge {
            left: edge.left,
            right: edge.right,
            sum: edge.sum + brightness,
            count: (if edge.count < u64::MAX {
                edge.count + 1
            } else {
                u64::MAX as int
            }) as u64,
        }),
{
    LitEdge {
        left: edge.left,
        right: edge.right,
        sum: edge.sum + brightness,
        count: if edge.count < u64::MAX {
            edge.count + 1
        } else {
            u64::MAX
        },
    }
}

/// A sorted list of edges with one surface more at an edge, whichever of its points comes first.
pub open spec fn spec_light(edges: Seq<LitEdge>, i: usize, j: usize, brightness: Double) -> Seq<
    LitEdge,
> {
    if i < j {
        lit(edges, i, j, brightness)
    } else {
        lit(edges, j, i, brightness)
    }
}

spec fn lit_before(left: usize, right: usize, other: LitEdge) -> bool {
    left < other.left || (left == other.left && right < other.right)
}

proof fn lemma_lit_at(edges: Seq<LitEdge>, left: usize, right: usize, brightness: Double, k: int)
    requires
        0 <= k <= edges.len(),
        forall|i: int| k <= i < edges.len() ==> lit_before(left, right, #[trigger] edges[i]),
        k > 0 ==> !lit_before(left, right, edges[k - 1]),
    ensures
        lit(edges, left, right, brightness) == if k > 0 && edges[k - 1].left == left && edges[k
            - 1].right == right {
            edges.update(k - 1, more_light(edges[k - 1], brightness))
        } else {
            edges.insert(k, first_light(left, right, brightness))
        },
    decreases edges.len(),
{
    let first = first_light(left, right, brightness);
    if k < edges.len() {
        let rest = edges.drop_last();
        assert(lit_before(left, right, edges[edges.len() - 1]));
        lemma_lit_at(rest, left, right, brightness, k);
        if k > 0 && edges[k - 1].left == left && edges[k - 1].right == right {
            let more = more_light(edges[k - 1], brightness);
            assert(rest.update(k - 1, more).push(edges.last()) =~= edges.update(k - 1, more));
        } else {
            assert(rest.insert(k, first).push(edges.last()) =~= edges.insert(k, first));
        }
    } else if k > 0 && edges[k - 1].left == left && edges[k - 1].right == right {
        let more = more_light(edges[k - 1], brightness);
        assert(edges.drop_last().push(more) =~= edges.update(k - 1, more));
    } else {
        assert(edges.push(first) =~= edges.insert(k, first));
        assert(edges.len() == 0 ==> seq![first] =~= edges.insert(k, first));
    }
}

fn light(edges: &mut Vec<LitEdge>, i: usize, j: usize, brightness: Double)
    ensures
        final(edges)@ == spec_light(old(edges)@, i, j, brightness),
{
    let left: usize = if i < j {
        i
    } else {
        j
    };
    let right: usize = if i < j {
        j
    } else {
        i
    };
    let mut k: usize = edges.len();
    while k > 0 && (left < edges[k - 1].left || (left == edges[k - 1].left && right < edges[k
        - 1].right))
        invariant
            k <= edges.len(),
            edges@ == old(edges)@,
            forall|m: int| k <= m < edges.len() ==> lit_before(left, right, #[trigger] edges[m]),
        decreases k,
    {
        k -= 1;
    }
    proof {
        lemma_lit_at(edges@, left, right, brightness, k as int);
    }
    if k > 0 && edges[k - 1].left == left && edges[k - 1].right == right {
        let more = more_light(edges[k - 1], brightness);
        edges.set(k - 1, more);
    } else {
        edges.insert(k, first_light(left, right, brightness));
    }
}

/// The edges of the first `k` triangles with the brightness of the surfaces that share them.
pub open spec fn lit_edges(triangles: Seq<Triangle>, brightness: Seq<Double>, k: int) -> Seq<LitEdge>
    decreases k,
{
    if k <= 0 {
        Seq::empty()
    } else {
        let t = triangles[k - 1];
        let b = brightness[k - 1];
        spec_light(
            spec_light(
                spec_light(lit_edges(triangles, brightness, k - 1), t.a, t.b, b),
                t.b,
                t.c,
                b,
            ),
            t.c,
            t.a,
            b,
        )
    }
}

/// An edge with the layer that it is drawn in.
#[derive(Clone, Copy, Debug, PartialEq, Eq, Structural)]
pub struct ShadedEdge {
    pub left: usize,
    pub right: usize,
    pub band: usize,
}

/// An edge in the layer of the mean brightness of its surfaces.
pub open spec fn shaded(edge: LitEdge, layer_count: usize) -> ShadedEdge {
    ShadedEdge {
        left: edge.left,
        right: edge.right,
        band: spec_shade_band(edge.sum / Double::integer(edge.count), layer_count),
    }
}

/// The edges of a mesh, each once, in the layer of the mean brightness of the surfaces that share
/// it.
pub fn shade_edges(triangles: &Vec<Triangle>, brightness: &Vec<Double>, layer_count: usize) -> (r:
    Vec<ShadedEdge>)
    requires
        brightness.len() == triangles.len(),
    ensures
        r@ == lit_edges(triangles@, brightness@, triangles.len() as int).map_values(
            |edge: LitEdge| shaded(edge, layer_count),
        ),
        layer_count > 0 ==> forall|i: int|
            0 <= i < r.len() ==> (#[trigger] r[i]).band < layer_count,
{
    let mut edges: Vec<LitEdge> = Vec::new();
    let mut i: usize = 0;
    while i < triangles.len()
        invariant
            i <= triangles.len(),
            brightness.len() == triangles.len(),
            edges@ == lit_edges(triangles@, brightness@, i as int),
        decreases triangles.len() - i,
    {
        let t = triangles[i];
        let b = brightness[i];
        light(&mut edges, t.a, t.b, b);
        light(&mut edges, t.b, t.c, b);
        light(&mut edges, t.c, t.a, b);
        i += 1;
    }
    let mut found: Vec<ShadedEdge> = Vec::new();
    let mut k: usize = 0;
    while k < edges.len()
        invariant
            k <= edges.len(),
            found.len() == k,
            forall|m: int|
                0 <= m < k ==> #[trigger] found[m] == shaded(edges[m], layer_count) && (layer_count
                    > 0 ==> found[m].band < layer_count),
        decreases edges.len() - k,
    {
        let edge = edges[k];
        found.push(
            ShadedEdge {
                left: edge.left,
                right: edge.right,
                band: shade_band(edge.sum / Double::integer(edge.count), layer_count),
            },
        );
        k += 1;
    }
    assert(found@ =~= edges@.map_values(|edge: LitEdge| shaded(edge, layer_count)));
    found
}

/// The pseudo-depth of a point does not depend on the yaw and the pitch of the head, which turn
/// only the directions of the surfaces.
pub proof fn law_depth_ignores_yaw_and_pitch(
    face: FaceView,
    other: FaceView,
    roll: SinCos,
    weights: Features,
    point: Point,
)
    requires
        face == (FaceView {
            yaw_radians: face.yaw_radians,
            pitch_radians: face.pitch_radians,
            ..other
        }),
    ensures
        spec_feature_exponents(face, point) == spec_feature_exponents(other, point),
        spec_pseudo_face_depth(face.bounding_box, roll, weights, point) == spec_pseudo_face_depth(
            other.bounding_box,
            roll,
            weights,
            point,
        ),
        spec_head_angles(face).roll == spec_head_angles(other).roll,
{
}

/// The pseudo-depth of a point of a face that is not flat lies between eight hundredths and one,
/// where it is a number.
pub proof fn law_depth_in_range(bounds: BoundingBox, roll: SinCos, weights: Features, point: Point)
    requires
        !bounds.width.at_most(epsilon()),
        !bounds.height.at_most(epsilon()),
        !spec_pseudo_face_depth(bounds, roll, weights, point).nan(),
    ensures
        Double::ratio(8, 100).at_most(spec_pseudo_face_depth(bounds, roll, weights, point)),
        spec_pseudo_face_depth(bounds, roll, weights, point).at_most(Double::integer(1)),
{
    Double::law_ratios_are_ordered(8, 100, 1, 1);
}

/// The brightness of a surface lies between zero and one, where it is a number.
pub proof fn law_brightness_in_range(
    bounds: BoundingBox,
    yaw: SinCos,
    pitch: SinCos,
    roll: SinCos,
    vertices: Seq<Point>,
    depths: Seq<Double>,
    t: Triangle,
)
    requires
        !spec_triangle_brightness(bounds, yaw, pitch, roll, vertices, depths, t).nan(),
    ensures
        Double::integer(0).at_most(
            spec_triangle_brightness(bounds, yaw, pitch, roll, vertices, depths, t),
        ),
        spec_triangle_brightness(bounds, yaw, pitch, roll, vertices, depths, t).at_most(
            Double::integer(1),
        ),
{
    Double::law_ratios_are_ordered(0, 1, 1, 1);
    Double::law_ratios_are_ordered(0, 1, 35, 100);
    Double::law_ratios_are_ordered(35, 100, 1, 1);
}

} // verus!
