//! What happens to a camera frame: whether it is processed, which faces are sent on, and what is
//! drawn of them.

use vstd::prelude::*;
use vstd::string::*;
use crate::camera::options::FaceMaskMode;
use crate::camera::triangulation;
use crate::camera::triangulation::{note, Edge, Triangle};
use crate::double::Double;
use crate::face_id::client::FaceIdClient;
use crate::face_id::identity::FaceIdentityMatch;
use crate::model::{BoundingBox, LandmarkKind, Point};
use crate::motion;
use crate::tracker;
use crate::tracker::{prediction_seconds, travelled, TrackedFace, TrackedView};

verus! {

/// The least time between two frames that are processed, in nanoseconds.
pub const FRAME_INTERVAL: u64 = 33_000_000;

/// The least time between two changes of the labels, in nanoseconds.
pub const LABEL_INTERVAL: u64 = 200_000_000;

/// How many layers a mesh with depth is drawn in.
pub const DEPTH_LAYER_COUNT: usize = 8;

/// When frames were processed and labels changed.
#[derive(Clone, Copy, Debug, PartialEq, Eq, Structural)]
pub struct FramePacing {
    pub last_processed: Option<u64>,
    pub last_label_refresh: Option<u64>,
    /// Whether a failure has been reported.
    pub reported_error: bool,
}

/// Whether a time has passed since something last happened.
#[verifier::allow_in_spec]
pub fn has_passed(last: Option<u64>, now: u64, interval: u64) -> bool
    returns
        (match last {
            Some(last) => now - last >= interval,
            None => true,
        }),
{
    match last {
        Some(last) => now >= last && now - last >= interval,
        None => true,
    }
}

impl FramePacing {
    pub fn new() -> (r: Self)
        ensures
            r == (FramePacing {
                last_processed: None,
                last_label_refresh: None,
                reported_error: false,
            }),
    {
        FramePacing { last_processed: None, last_label_refresh: None, reported_error: false }
    }

    /// Whether a frame is processed: not until the interval has passed since the last one.
    pub fn accept(&mut self, now: u64) -> (r: bool)
        ensures
            r == has_passed(old(self).last_processed, now, FRAME_INTERVAL),
            *final(self) == if r {
                FramePacing { last_processed: Some(now), ..*old(self) }
            } else {
                *old(self)
            },
    {
        if !has_passed(self.last_processed, now, FRAME_INTERVAL) {
            return false;
        }
        self.last_processed = Some(now);
        true
    }

    /// Whether the labels change: at once where there are no faces, and not until the interval has
    /// passed since the last time where there are.
    pub fn refresh_labels(&mut self, face_count: usize, now: u64) -> (r: bool)
        ensures
            r == (face_count == 0 || has_passed(
                old(self).last_label_refresh,
                now,
                LABEL_INTERVAL,
            )),
            *final(self) == if face_count == 0 {
                FramePacing { last_label_refresh: None, ..*old(self) }
            } else if r {
                FramePacing { last_label_refresh: Some(now), ..*old(self) }
            } else {
                *old(self)
            },
    {
        if face_count == 0 {
            self.last_label_refresh = None;
            return true;
        }
        if has_passed(self.last_label_refresh, now, LABEL_INTERVAL) {
            self.last_label_refresh = Some(now);
            return true;
        }
        false
    }

    /// Whether a failure is reported: only the first one is.
    pub fn report_error(&mut self) -> (r: bool)
        ensures
            r == !old(self).reported_error,
            *final(self) == (FramePacing { reported_error: true, ..*old(self) }),
    {
        let first = !self.reported_error;
        self.reported_error = true;
        first
    }
}

/// Any number of frames that are processed one after the other are at least that many intervals
/// apart, less one: at most thirty-one of them begin within a second.
pub proof fn law_frames_are_spaced(times: Seq<u64>)
    requires
        times.len() > 0,
        forall|i: int|
            0 < i < times.len() ==> has_passed(
                Some(times[i - 1]),
                #[trigger] times[i],
                FRAME_INTERVAL,
            ),
    ensures
        times[times.len() - 1] - times[0] >= (times.len() - 1) * FRAME_INTERVAL,
        times[times.len() - 1] - times[0] < 1_000_000_000 ==> times.len() <= 31,
    decreases times.len(),
{
    if times.len() > 1 {
        let earlier = times.drop_last();
        assert forall|i: int| 0 < i < earlier.len() implies has_passed(
            Some(earlier[i - 1]),
            #[trigger] earlier[i],
            FRAME_INTERVAL,
        ) by {
            assert(earlier[i] == times[i]);
        }
        law_frames_are_spaced(earlier);
        let last = times[times.len() - 1];
        assert(has_passed(Some(times[times.len() - 2]), last, FRAME_INTERVAL));
    }
}

/// A face as it is shown: ahead of the inference and the presentation.
pub open spec fn shown(face: TrackedView, inference_seconds: Double) -> TrackedView {
    let delay = inference_seconds + Double::ratio(1, 60);
    TrackedView {
        geometry: motion::moved_face(
            face.geometry,
            travelled(
                face.velocity_per_second,
                prediction_seconds(delay, face.smoothing_lag_seconds),
            ),
        ),
        ..face
    }
}

/// Faces as they are shown.
pub fn predicted_faces(faces: &Vec<TrackedFace>, inference_seconds: Double) -> (r: Vec<TrackedFace>)
    ensures
        tracker::tracked_views(r@) == tracker::tracked_views(faces@).map_values(
            |face: TrackedView| shown(face, inference_seconds),
        ),
{
    let delay = inference_seconds + Double::ratio(1, 60);
    let mut predicted: Vec<TrackedFace> = Vec::new();
    let mut i: usize = 0;
    while i < faces.len()
        invariant
            i <= faces.len(),
            delay == inference_seconds + Double::ratio(1, 60),
            predicted.len() == i,
            forall|k: int|
                0 <= k < i ==> (#[trigger] predicted[k])@ == shown(faces[k]@, inference_seconds),
        decreases faces.len() - i,
    {
        predicted.push(faces[i].predicted(delay));
        i += 1;
    }
    assert(tracker::tracked_views(predicted@) =~= tracker::tracked_views(faces@).map_values(
        |face: TrackedView| shown(face, inference_seconds),
    ));
    predicted
}

/// The places of the faces that should be sent to the worker.
pub fn wanted_faces(client: &FaceIdClient, faces: &Vec<TrackedFace>, now: u64) -> (r: Vec<usize>)
    ensures
        forall|i: int| 0 <= i < r.len() ==> (#[trigger] r[i]) < faces.len(),
        forall|i: int, j: int| 0 <= i < j < r.len() ==> r[i] < r[j],
        forall|k: usize|
            k < faces.len() ==> (r@.contains(k) <==> client@.wants(
                (#[trigger] faces[k as int]).track_id,
                faces[k as int].geometry@,
                now,
            )),
{
    let mut wanted: Vec<usize> = Vec::new();
    let mut i: usize = 0;
    while i < faces.len()
        invariant
            i <= faces.len(),
            forall|m: int| 0 <= m < wanted.len() ==> (#[trigger] wanted[m]) < i,
            forall|m: int, o: int| 0 <= m < o < wanted.len() ==> wanted[m] < wanted[o],
            forall|k: usize|
                k < i ==> (wanted@.contains(k) <==> client@.wants(
                    (#[trigger] faces[k as int]).track_id,
                    faces[k as int].geometry@,
                    now,
                )),
        decreases faces.len() - i,
    {
        let ghost before = wanted@;
        if client.wants_track(faces[i].track_id, &faces[i].geometry, now) {
            wanted.push(i);
        }
        proof {
            assert forall|k: usize| k < i + 1 implies (wanted@.contains(k) <==> client@.wants(
                (#[trigger] faces[k as int]).track_id,
                faces[k as int].geometry@,
                now,
            )) by {
                if k < i {
                    if before.contains(k) {
                        let m = choose|m: int| 0 <= m < before.len() && before[m] == k;
                        assert(wanted@[m] == k);
                    }
                    if wanted@.contains(k) {
                        let m = choose|m: int| 0 <= m < wanted@.len() && wanted@[m] == k;
                        assert(before[m] == k);
                    }
                } else if wanted.len() > before.len() {
                    assert(wanted@[before.len() as int] == k);
                } else if wanted@.contains(k) {
                    let m = choose|m: int| 0 <= m < wanted@.len() && wanted@[m] == k;
                    assert(wanted[m] < i);
                }
            }
        }
        i += 1;
    }
    wanted
}

/// Who the faces were recognized as.
pub fn identities(client: &FaceIdClient, faces: &Vec<TrackedFace>) -> (r: Vec<
    Option<FaceIdentityMatch>,
>)
    ensures
        r.len() == faces.len(),
        forall|i: int|
            0 <= i < r.len() ==> match #[trigger] r[i] {
                Some(result) => client@.results.contains_key(faces[i].track_id)
                    && client@.results[faces[i].track_id] == result@,
                None => !client@.results.contains_key(faces[i].track_id),
            },
{
    let mut found: Vec<Option<FaceIdentityMatch>> = Vec::new();
    let mut i: usize = 0;
    while i < faces.len()
        invariant
            i <= faces.len(),
            found.len() == i,
            forall|k: int|
                0 <= k < i ==> match #[trigger] found[k] {
                    Some(result) => client@.results.contains_key(faces[k].track_id)
                        && client@.results[faces[k].track_id] == result@,
                    None => !client@.results.contains_key(faces[k].track_id),
                },
        decreases faces.len() - i,
    {
        found.push(client.identity_for_track(faces[i].track_id));
        i += 1;
    }
    found
}

/// What is wrong with a frame for a guided capture, which takes exactly one face.
#[verifier::allow_in_spec]
pub fn capture_problem(face_count: usize) -> Option<&'static str>
    returns
        (if face_count == 0 {
            Some("NO FACE \u{2014} move one person into view")
        } else if face_count == 1 {
            None
        } else {
            Some("MULTIPLE FACES \u{2014} only one person is allowed")
        }),
{
    if face_count == 0 {
        Some("NO FACE \u{2014} move one person into view")
    } else if face_count == 1 {
        None
    } else {
        Some("MULTIPLE FACES \u{2014} only one person is allowed")
    }
}

/// A point as the preview takes it: in the same coordinates.
#[verifier::allow_in_spec]
pub fn vision_to_capture_point(point: Point) -> Point
    returns
        point,
{
    point
}

/// The corners of a box, around it.
pub fn box_corners(bounds: BoundingBox) -> (r: Vec<Point>)
    ensures
        r@ == seq![
            (Point { x: bounds.x, y: bounds.y }),
            (Point { x: bounds.x + bounds.width, y: bounds.y }),
            (Point { x: bounds.x + bounds.width, y: bounds.y + bounds.height }),
            (Point { x: bounds.x, y: bounds.y + bounds.height }),
        ],
{
    let mut corners: Vec<Point> = Vec::new();
    corners.push(Point { x: bounds.x, y: bounds.y });
    corners.push(Point { x: bounds.x + bounds.width, y: bounds.y });
    corners.push(Point { x: bounds.x + bounds.width, y: bounds.y + bounds.height });
    corners.push(Point { x: bounds.x, y: bounds.y + bounds.height });
    assert(corners@ =~= seq![
        (Point { x: bounds.x, y: bounds.y }),
        (Point { x: bounds.x + bounds.width, y: bounds.y }),
        (Point { x: bounds.x + bounds.width, y: bounds.y + bounds.height }),
        (Point { x: bounds.x, y: bounds.y + bounds.height }),
    ]);
    corners
}

/// How a landmark region is drawn.
#[derive(Clone, Copy, Debug, PartialEq, Eq, Structural)]
pub enum Outline {
    /// Not at all.
    Hidden,
    /// By a dot at its first point.
    Marker,
    /// By a line that is left open.
    Open,
    /// By a line that is closed.
    Closed,
}

#[verifier::allow_in_spec]
pub fn outline(kind: LandmarkKind, point_count: usize) -> Outline
    returns
        (if kind == LandmarkKind::AllPoints || point_count == 0 {
            Outline::Hidden
        } else {
            match kind {
                LandmarkKind::LeftPupil | LandmarkKind::RightPupil => Outline::Marker,
                LandmarkKind::LeftEye
                | LandmarkKind::RightEye
                | LandmarkKind::Nose
                | LandmarkKind::OuterLips
                | LandmarkKind::InnerLips => Outline::Closed,
                _ => Outline::Open,
            }
        }),
{
    if kind == LandmarkKind::AllPoints || point_count == 0 {
        Outline::Hidden
    } else {
        match kind {
            LandmarkKind::LeftPupil | LandmarkKind::RightPupil => Outline::Marker,
            LandmarkKind::LeftEye
            | LandmarkKind::RightEye
            | LandmarkKind::Nose
            | LandmarkKind::OuterLips
            | LandmarkKind::InnerLips => Outline::Closed,
            _ => Outline::Open,
        }
    }
}

/// The edges of the first `k` triangles, each once.
pub open spec fn edges_of(triangles: Seq<Triangle>, k: int) -> Seq<Edge>
    decreases k,
{
    if k <= 0 {
        Seq::empty()
    } else {
        let t = triangles[k - 1];
        triangulation::spec_note(
            triangulation::spec_note(
                triangulation::spec_note(edges_of(triangles, k - 1), t.a, t.b),
                t.b,
                t.c,
            ),
            t.c,
            t.a,
        )
    }
}

/// The edges of a mesh, each once.
pub fn mesh_edges(triangles: &Vec<Triangle>) -> (r: Vec<Edge>)
    ensures
        r@ == edges_of(triangles@, triangles.len() as int),
{
    let mut edges: Vec<Edge> = Vec::new();
    let mut i: usize = 0;
    while i < triangles.len()
        invariant
            i <= triangles.len(),
            edges@ == edges_of(triangles@, i as int),
        decreases triangles.len() - i,
    {
        let t = triangles[i];
        note(&mut edges, t.a, t.b);
        note(&mut edges, t.b, t.c);
        note(&mut edges, t.c, t.a);
        i += 1;
    }
    edges
}

/// How strongly and how wide lines are drawn.
#[derive(Clone, Copy, Debug, PartialEq, Eq, Structural)]
pub struct LineStyle {
    pub alpha: Double,
    pub width: Double,
}

/// How landmarks are drawn: more softly over a mesh with depth.
#[verifier::allow_in_spec]
pub fn overlay_style(mode: FaceMaskMode) -> LineStyle
    returns
        (if mode == FaceMaskMode::Depth {
            LineStyle { alpha: Double::ratio(70, 100), width: Double::ratio(115, 100) }
        } else {
            LineStyle { alpha: Double::ratio(95, 100), width: Double::integer(2) }
        }),
{
    if mode == FaceMaskMode::Depth {
        LineStyle { alpha: Double::ratio(70, 100), width: Double::ratio(115, 100) }
    } else {
        LineStyle { alpha: Double::ratio(95, 100), width: Double::integer(2) }
    }
}

/// How a layer of a mesh with depth is drawn: the brighter, the stronger and the wider.
#[verifier::allow_in_spec]
pub fn depth_style(layer: usize) -> LineStyle
    returns
        ({
            let intensity = Double::integer(layer as u64) / Double::integer(7);
            LineStyle {
                alpha: Double::ratio(22, 100) + intensity * Double::ratio(56, 100),
                width: Double::ratio(58, 100) + intensity * Double::ratio(26, 100),
            }
        }),
{
    let intensity = Double::integer(layer as u64) / Double::integer(7);
    LineStyle {
        alpha: Double::ratio(22, 100) + intensity * Double::ratio(56, 100),
        width: Double::ratio(58, 100) + intensity * Double::ratio(26, 100),
    }
}

/// The layers that a mesh is drawn in.
pub fn mask_styles(mode: FaceMaskMode) -> (r: Vec<LineStyle>)
    ensures
        match mode {
            FaceMaskMode::Off => r.len() == 0,
            FaceMaskMode::Polygon => r@ == seq![
                LineStyle { alpha: Double::ratio(72, 100), width: Double::ratio(85, 100) },
            ],
            FaceMaskMode::Depth => r@ == Seq::new(
                DEPTH_LAYER_COUNT as nat,
                |i: int| depth_style(i as usize),
            ),
        },
{
    let mut styles: Vec<LineStyle> = Vec::new();
    match mode {
        FaceMaskMode::Off => {},
        FaceMaskMode::Polygon => {
            let style = LineStyle { alpha: Double::ratio(72, 100), width: Double::ratio(85, 100) };
            styles.push(style);
            assert(styles@ =~= seq![style]);
        },
        FaceMaskMode::Depth => {
            let mut i: usize = 0;
            while i < DEPTH_LAYER_COUNT
                invariant
                    i <= DEPTH_LAYER_COUNT,
                    styles.len() == i,
                    forall|k: int| 0 <= k < i ==> #[trigger] styles[k] == depth_style(k as usize),
                decreases DEPTH_LAYER_COUNT - i,
            {
                styles.push(depth_style(i));
                i += 1;
            }
            assert(styles@ =~= Seq::new(
                DEPTH_LAYER_COUNT as nat,
                |i: int| depth_style(i as usize),
            ));
        },
    }
    styles
}

/// What the system says of the camera.
#[derive(Clone, Copy, Debug, PartialEq, Eq, Structural)]
pub enum CameraAuthorization {
    Authorized,
    Denied,
    Restricted,
    NotDetermined,
    Unknown,
}

/// Whether the camera may be used: `true` where it may, `false` where that is to be asked.
pub fn camera_access(status: CameraAuthorization) -> (r: Result<bool, &'static str>)
    ensures
        match status {
            CameraAuthorization::Authorized => r == Ok::<bool, &'static str>(true),
            CameraAuthorization::NotDetermined => r == Ok::<bool, &'static str>(false),
            CameraAuthorization::Denied => r matches Err(message) && message@
                == "camera access is denied; enable it for your terminal in System Settings > Privacy & Security > Camera"@,
            CameraAuthorization::Restricted => r matches Err(message) && message@
                == "camera access is restricted by system policy"@,
            CameraAuthorization::Unknown => r matches Err(message) && message@
                == "macOS returned an unknown camera authorization status"@,
        },
{
    match status {
        CameraAuthorization::Authorized => Ok(true),
        CameraAuthorization::NotDetermined => Ok(false),
        CameraAuthorization::Denied => Err(
            "camera access is denied; enable it for your terminal in System Settings > Privacy & Security > Camera",
        ),
        CameraAuthorization::Restricted => Err("camera access is restricted by system policy"),
        CameraAuthorization::Unknown => Err(
            "macOS returned an unknown camera authorization status",
        ),
    }
}

} // verus!
