//! Portable multi-face association, stable IDs, and geometry smoothing.

use std::time::Instant;
use vstd::prelude::*;
use crate::assignment;
use crate::bounds;
use crate::clock::{nanoseconds_since, reading};
use crate::double::Double;
use crate::model::{BoundingBox, FaceGeometry, FaceView, Point};
use crate::motion;
use crate::motion::{
    center, diagonal, intersection_over_union, landmark_shape_distance, lerp_point,
    seconds_between, smooth_geometry, translate_geometry,
};
use crate::weight;

verus! {

/// The cost of a match that must not be made.
#[verifier::allow_in_spec]
pub fn invalid_match_cost() -> Double
    returns
        Double::integer(1_000_000),
{
    Double::integer(1_000_000)
}

/// The cost of leaving a track or a detection unmatched.
#[verifier::allow_in_spec]
pub fn unmatched_cost() -> Double
    returns
        Double::ratio(9, 10),
{
    Double::ratio(9, 10)
}

#[derive(Clone, Copy, Debug, PartialEq, Eq, Structural)]
pub struct FaceTrackerConfig {
    /// Detection updates that a missing face remains eligible for reassociation.
    pub max_missed_frames: u32,
    /// Weight of the latest observation when smoothing geometry, in `(0, 1]`.
    pub smoothing_factor: Double,
}

impl FaceTrackerConfig {
    /// The smoothing factor is in `(0, 1]`.
    #[verifier::allow_in_spec]
    pub fn is_valid(self) -> bool
        returns
            Double::integer(0).less(self.smoothing_factor) && self.smoothing_factor.at_most(
                Double::integer(1),
            ),
    {
        Double::integer(0).less(self.smoothing_factor) && self.smoothing_factor.at_most(
            Double::integer(1),
        )
    }
}

impl Default for FaceTrackerConfig {
    fn default() -> (r: Self)
        ensures
            r == (FaceTrackerConfig {
                max_missed_frames: 15,
                smoothing_factor: Double::ratio(8, 10),
            }),
    {
        FaceTrackerConfig { max_missed_frames: 15, smoothing_factor: Double::ratio(8, 10) }
    }
}

/// A face with the number of its track.
#[derive(Debug)]
pub struct TrackedFace {
    pub track_id: u64,
    pub geometry: FaceGeometry,
    pub velocity_per_second: Point,
    pub smoothing_lag_seconds: Double,
}

/// The content of a tracked face.
#[verifier::ext_equal]
pub struct TrackedView {
    pub track_id: u64,
    pub geometry: FaceView,
    pub velocity_per_second: Point,
    pub smoothing_lag_seconds: Double,
}

impl View for TrackedFace {
    type V = TrackedView;

    open spec fn view(&self) -> TrackedView {
        TrackedView {
            track_id: self.track_id,
            geometry: self.geometry@,
            velocity_per_second: self.velocity_per_second,
            smoothing_lag_seconds: self.smoothing_lag_seconds,
        }
    }
}

impl Clone for TrackedFace {
    fn clone(&self) -> (r: Self)
        ensures
            r@ == self@,
    {
        TrackedFace {
            track_id: self.track_id,
            geometry: self.geometry.clone(),
            velocity_per_second: self.velocity_per_second,
            smoothing_lag_seconds: self.smoothing_lag_seconds,
        }
    }
}

/// How far ahead a face is predicted: the delay and the lag of smoothing, a quarter of a second at
/// most.
#[verifier::allow_in_spec]
pub fn prediction_seconds(pipeline_delay_seconds: Double, smoothing_lag_seconds: Double) -> Double
    returns
        (pipeline_delay_seconds.max(Double::integer(0)) + smoothing_lag_seconds).min(
            Double::ratio(1, 4),
        ),
{
    (pipeline_delay_seconds.max(Double::integer(0)) + smoothing_lag_seconds).min(
        Double::ratio(1, 4),
    )
}

/// The way that a velocity covers in a time.
#[verifier::allow_in_spec]
pub fn travelled(velocity: Point, time: Double) -> Point
    returns
        (Point { x: velocity.x * time, y: velocity.y * time }),
{
    Point { x: velocity.x * time, y: velocity.y * time }
}

impl TrackedFace {
    /// Predicts geometry forward to compensate for inference and presentation delay.
    pub fn predicted(&self, pipeline_delay_seconds: Double) -> (r: Self)
        ensures
            r@ == (TrackedView {
                geometry: motion::moved_face(
                    self@.geometry,
                    travelled(
                        self@.velocity_per_second,
                        prediction_seconds(pipeline_delay_seconds, self@.smoothing_lag_seconds),
                    ),
                ),
                ..self@
            }),
    {
        let time = prediction_seconds(pipeline_delay_seconds, self.smoothing_lag_seconds);
        let mut geometry = self.geometry.clone();
        translate_geometry(&mut geometry, travelled(self.velocity_per_second, time));
        TrackedFace {
            track_id: self.track_id,
            geometry,
            velocity_per_second: self.velocity_per_second,
            smoothing_lag_seconds: self.smoothing_lag_seconds,
        }
    }
}

#[derive(Debug)]
struct Track {
    id: u64,
    geometry: FaceGeometry,
    last_observed_bounds: BoundingBox,
    /// Nanoseconds from the start that all updates count from.
    last_observed_at: u64,
    last_interval_seconds: Double,
    velocity: Point,
    missed_frames: u32,
}

/// The content of a track.
#[verifier::ext_equal]
pub struct TrackView {
    pub id: u64,
    pub geometry: FaceView,
    pub last_observed_bounds: BoundingBox,
    pub last_observed_at: u64,
    pub last_interval_seconds: Double,
    pub velocity: Point,
    pub missed_frames: u32,
}

impl View for Track {
    type V = TrackView;

    closed spec fn view(&self) -> TrackView {
        TrackView {
            id: self.id,
            geometry: self.geometry@,
            last_observed_bounds: self.last_observed_bounds,
            last_observed_at: self.last_observed_at,
            last_interval_seconds: self.last_interval_seconds,
            velocity: self.velocity,
            missed_frames: self.missed_frames,
        }
    }
}

/// Follows faces from one detection update to the next.
#[derive(Debug)]
pub struct FaceTracker {
    config: FaceTrackerConfig,
    next_id: u64,
    tracks: Vec<Track>,
    /// From when the time of an update counts.
    start: Instant,
}

/// The state of a tracker: its tracks from the oldest to the newest, and the number that the next
/// new track gets.
#[verifier::ext_equal]
pub struct TrackerView {
    pub config: FaceTrackerConfig,
    pub next_id: u64,
    pub tracks: Seq<TrackView>,
}

impl View for FaceTracker {
    type V = TrackerView;

    closed spec fn view(&self) -> TrackerView {
        TrackerView {
            config: self.config,
            next_id: self.next_id,
            tracks: track_views(self.tracks@),
        }
    }
}

spec fn track_views(tracks: Seq<Track>) -> Seq<TrackView> {
    tracks.map_values(|track: Track| track@)
}

/// The contents of detected faces.
pub open spec fn face_views(faces: Seq<FaceGeometry>) -> Seq<FaceView> {
    faces.map_values(|face: FaceGeometry| face@)
}

/// The contents of tracked faces.
pub open spec fn tracked_views(faces: Seq<TrackedFace>) -> Seq<TrackedView> {
    faces.map_values(|face: TrackedFace| face@)
}

impl TrackView {
    /// Where the face of a track is expected.
    pub open spec fn predicted_bounds(self, now: u64) -> BoundingBox {
        let elapsed = seconds_between(self.last_observed_at, now).min(Double::ratio(1, 2));
        let bounds = self.last_observed_bounds;
        BoundingBox {
            x: bounds.x + self.velocity.x * elapsed,
            y: bounds.y + self.velocity.y * elapsed,
            ..bounds
        }
    }

    /// A detection is too far from where the face of a track is expected: they share next to
    /// nothing and are more than five quarters of their diagonal apart.
    pub open spec fn is_far(self, detection: FaceView, now: u64) -> bool {
        let predicted = self.predicted_bounds(now);
        let observed = detection.bounding_box;
        intersection_over_union(predicted, observed).less(Double::ratio(5, 100)) && Double::ratio(
            125,
            100,
        ).less(relative_distance(predicted, observed))
    }

    /// What it costs to take a detection for the face of a track.
    pub open spec fn match_cost(self, detection: FaceView, now: u64) -> Double {
        let predicted = self.predicted_bounds(now);
        let observed = detection.bounding_box;
        if self.is_far(detection, now) {
            invalid_match_cost()
        } else {
            weighted_cost(
                intersection_over_union(predicted, observed),
                relative_distance(predicted, observed),
                match motion::spec_landmark_shape_distance(self.geometry, detection) {
                    Some(landmarks) => landmarks,
                    None => Double::ratio(1, 2),
                },
            )
        }
    }

    /// The track after it was matched with `detection`.
    pub open spec fn observed(self, detection: FaceView, now: u64, alpha: Double) -> TrackView {
        let interval = interval_seconds(self.last_observed_at, now);
        TrackView {
            id: self.id,
            geometry: motion::spec_smooth_geometry(self.geometry, detection, alpha),
            last_observed_bounds: detection.bounding_box,
            last_observed_at: now,
            last_interval_seconds: interval,
            velocity: lerp_point(
                self.velocity,
                velocity(
                    center(self.last_observed_bounds),
                    center(detection.bounding_box),
                    interval,
                ),
                Double::ratio(65, 100),
            ),
            missed_frames: 0,
        }
    }

    /// The track after an update without its face.
    pub open spec fn missed(self) -> TrackView {
        TrackView {
            missed_frames: (if self.missed_frames < u32::MAX {
                self.missed_frames + 1
            } else {
                u32::MAX as int
            }) as u32,
            ..self
        }
    }

    /// The new track `id` of a detection.
    pub open spec fn started(id: u64, detection: FaceView, now: u64) -> TrackView {
        TrackView {
            id,
            geometry: detection,
            last_observed_bounds: detection.bounding_box,
            last_observed_at: now,
            last_interval_seconds: Double::ratio(1, 30),
            velocity: Point::zero(),
            missed_frames: 0,
        }
    }

    /// The face of a track that was just observed.
    pub open spec fn face(self, alpha: Double) -> TrackedView {
        TrackedView {
            track_id: self.id,
            geometry: self.geometry,
            velocity_per_second: self.velocity,
            smoothing_lag_seconds: smoothing_lag_seconds(alpha, self.last_interval_seconds),
        }
    }

    /// The face of a track that was just started.
    pub open spec fn new_face(self) -> TrackedView {
        TrackedView {
            track_id: self.id,
            geometry: self.geometry,
            velocity_per_second: Point::zero(),
            smoothing_lag_seconds: Double::integer(0),
        }
    }
}

/// The distance of two centres over the mean diagonal, which counts as a twentieth at least.
#[verifier::allow_in_spec]
pub fn relative_distance(left: BoundingBox, right: BoundingBox) -> Double
    returns
        center(left).distance(center(right)) / ((diagonal(left) + diagonal(right))
            / Double::integer(2)).max(Double::ratio(5, 100)),
{
    center(left).distance(center(right)) / ((diagonal(left) + diagonal(right)) / Double::integer(
        2,
    )).max(Double::ratio(5, 100))
}

/// A match's cost from what two faces share, how far apart they are and how their shapes differ.
#[verifier::allow_in_spec]
pub fn weighted_cost(overlap: Double, distance: Double, landmarks: Double) -> Double
    returns
        Double::ratio(6, 10) * (Double::integer(1) - overlap) + Double::ratio(3, 10)
            * distance.min(Double::integer(1)) + Double::ratio(1, 10) * landmarks.min(
            Double::integer(1),
        ),
{
    Double::ratio(6, 10) * (Double::integer(1) - overlap) + Double::ratio(3, 10) * distance.min(
        Double::integer(1),
    ) + Double::ratio(1, 10) * landmarks.min(Double::integer(1))
}

/// The time from one observation to the next, a frame of a hundred and twenty a second at least.
#[verifier::allow_in_spec]
pub fn interval_seconds(earlier: u64, later: u64) -> Double
    returns
        seconds_between(earlier, later).max(Double::ratio(1, 120)),
{
    seconds_between(earlier, later).max(Double::ratio(1, 120))
}

/// The velocity of a way covered in a time.
#[verifier::allow_in_spec]
pub fn velocity(from: Point, to: Point, time: Double) -> Point
    returns
        (Point { x: (to.x - from.x) / time, y: (to.y - from.y) / time }),
{
    Point { x: (to.x - from.x) / time, y: (to.y - from.y) / time }
}

/// How far smoothing lags behind, in seconds.
#[verifier::allow_in_spec]
pub fn smoothing_lag_seconds(alpha: Double, interval_seconds: Double) -> Double
    returns
        ((Double::integer(1) - alpha) / alpha) * interval_seconds,
{
    ((Double::integer(1) - alpha) / alpha) * interval_seconds
}

/// Minimum-cost assignment for a square matrix using the Hungarian algorithm: the column of each
/// row.
pub fn hungarian_minimize(costs: &Vec<Vec<Double>>) -> (r: Vec<usize>)
    requires
        forall|i: int| 0 <= i < costs.len() ==> (#[trigger] costs[i]).len() == costs.len(),
        costs.len() < usize::MAX,
    ensures
        assignment::is_permutation(r@, costs.len() as int),
        weight::is_least(weight::cost_rows(costs@), r@),
{
    let weighed = weight::weigh(costs);
    let columns = assignment::minimize(&weighed);
    proof {
        let plain = weight::cost_rows(costs@);
        assert(plain.len() == costs.len());
        assert forall|i: int| 0 <= i < plain.len() implies (#[trigger] plain[i]).len()
            == plain.len() by {
            assert(plain[i] == costs[i]@);
        }
        weight::lemma_least(plain, columns@);
    }
    columns
}

/// One update of a tracker: its state before, the detections, their time, and the column that the
/// optimizer gave each row of the cost matrix.
pub struct Update {
    pub tracker: TrackerView,
    pub detections: Seq<FaceView>,
    pub now: u64,
    pub columns: Seq<usize>,
}

impl Update {
    /// A row for each track and then one for each detection; a column for each detection and then
    /// one for each track. The rows and columns beyond the pairs of a track and a detection let
    /// the optimizer leave either unmatched.
    pub open spec fn cost(self, row: int, column: int) -> Double {
        let tracks = self.tracker.tracks;
        let count = self.detections.len();
        if row < tracks.len() && column < count {
            tracks[row].match_cost(self.detections[column], self.now)
        } else if row < tracks.len() {
            if column == count + row {
                unmatched_cost()
            } else {
                invalid_match_cost()
            }
        } else if column >= count {
            Double::integer(0)
        } else if column == row - tracks.len() {
            unmatched_cost()
        } else {
            invalid_match_cost()
        }
    }

    pub open spec fn size(self) -> nat {
        self.tracker.tracks.len() + self.detections.len()
    }

    pub open spec fn costs(self) -> Seq<Seq<Double>> {
        Seq::new(self.size(), |i: int| Seq::new(self.size(), |j: int| self.cost(i, j)))
    }

    /// No other choice of columns costs less in all, but for a rounding.
    pub open spec fn is_optimal(self) -> bool {
        weight::is_least(self.costs(), self.columns)
    }

    /// Track `i` is matched with detection `d`.
    pub open spec fn paired(self, i: int, d: int) -> bool {
        &&& 0 <= i < self.tracker.tracks.len()
        &&& 0 <= d < self.detections.len()
        &&& self.columns[i] == d
        &&& self.cost(i, d).less(Double::integer(500_000))
    }

    /// The detection that track `i` is matched with.
    pub open spec fn partner(self, i: int) -> Option<usize> {
        if self.paired(i, self.columns[i] as int) {
            Some(self.columns[i])
        } else {
            None
        }
    }

    /// Some track is matched with detection `d`.
    pub open spec fn is_claimed(self, d: int) -> bool {
        exists|i: int| self.paired(i, d)
    }

    /// The track that is matched with detection `d`.
    pub open spec fn owner(self, d: int) -> int {
        choose|i: int| self.paired(i, d)
    }

    /// Track `i` after the update.
    pub open spec fn stepped(self, i: int) -> TrackView {
        let track = self.tracker.tracks[i];
        let d = self.columns[i] as int;
        if self.paired(i, d) {
            track.observed(
                self.detections[d],
                self.now,
                self.tracker.config.smoothing_factor,
            )
        } else {
            track.missed()
        }
    }

    /// The number of the new track that comes after `count` others.
    pub open spec fn number(self, count: nat) -> u64 {
        (if self.tracker.next_id + count <= u64::MAX {
            self.tracker.next_id + count
        } else {
            u64::MAX as int
        }) as u64
    }

    /// The tracks that the unclaimed ones of the first `k` detections start, in their order.
    pub open spec fn fresh(self, k: int) -> Seq<TrackView>
        decreases k,
    {
        if k <= 0 {
            Seq::empty()
        } else if self.is_claimed(k - 1) {
            self.fresh(k - 1)
        } else {
            self.fresh(k - 1).push(
                TrackView::started(
                    self.number(self.fresh(k - 1).len()),
                    self.detections[k - 1],
                    self.now,
                ),
            )
        }
    }

    /// All tracks, old and new.
    pub open spec fn all_tracks(self) -> Seq<TrackView> {
        Seq::new(self.tracker.tracks.len(), |i: int| self.stepped(i)) + self.fresh(
            self.detections.len() as int,
        )
    }

    /// The tracker after the update: without the tracks that have been missing for too long.
    pub open spec fn next(self) -> TrackerView {
        TrackerView {
            config: self.tracker.config,
            next_id: self.number(self.fresh(self.detections.len() as int).len()),
            tracks: surviving(
                self.all_tracks(),
                self.tracker.config.max_missed_frames,
                self.all_tracks().len() as int,
            ),
        }
    }

    /// What is returned for detection `d`.
    pub open spec fn face(self, d: int) -> TrackedView {
        let alpha = self.tracker.config.smoothing_factor;
        if self.is_claimed(d) {
            self.tracker.tracks[self.owner(d)].observed(
                self.detections[d],
                self.now,
                alpha,
            ).face(alpha)
        } else {
            TrackView::started(
                self.number(self.fresh(d).len()),
                self.detections[d],
                self.now,
            ).new_face()
        }
    }

    /// What is returned: a face for each detection, in detection order.
    pub open spec fn faces(self) -> Seq<TrackedView> {
        Seq::new(self.detections.len(), |d: int| self.face(d))
    }
}

/// The first `k` tracks without those that have been missing for more than `limit` updates.
pub open spec fn surviving(tracks: Seq<TrackView>, limit: u32, k: int) -> Seq<TrackView>
    decreases k,
{
    if k <= 0 {
        Seq::empty()
    } else if tracks[k - 1].missed_frames <= limit {
        surviving(tracks, limit, k - 1).push(tracks[k - 1])
    } else {
        surviving(tracks, limit, k - 1)
    }
}

impl Track {
    fn predicted_bounds(&self, now: u64) -> (r: BoundingBox)
        ensures
            r == self@.predicted_bounds(now),
    {
        let elapsed = seconds_between(self.last_observed_at, now).min(Double::ratio(1, 2));
        let bounds = self.last_observed_bounds;
        BoundingBox {
            x: bounds.x + self.velocity.x * elapsed,
            y: bounds.y + self.velocity.y * elapsed,
            width: bounds.width,
            height: bounds.height,
        }
    }

    fn match_cost(&self, detection: &FaceGeometry, now: u64) -> (r: Double)
        ensures
            r == self@.match_cost(detection@, now),
    {
        let predicted = self.predicted_bounds(now);
        let observed = detection.bounding_box;
        let overlap = intersection_over_union(predicted, observed);
        let distance = relative_distance(predicted, observed);
        if overlap.less(Double::ratio(5, 100)) && Double::ratio(125, 100).less(distance) {
            return invalid_match_cost();
        }
        let landmarks = match landmark_shape_distance(&self.geometry, detection) {
            Some(landmarks) => landmarks,
            None => Double::ratio(1, 2),
        };
        weighted_cost(overlap, distance, landmarks)
    }

    fn observed(&self, detection: &FaceGeometry, now: u64, alpha: Double) -> (r: Track)
        ensures
            r@ == self@.observed(detection@, now, alpha),
    {
        let interval = interval_seconds(self.last_observed_at, now);
        let observed_velocity = velocity(
            center(self.last_observed_bounds),
            center(detection.bounding_box),
            interval,
        );
        Track {
            id: self.id,
            geometry: smooth_geometry(&self.geometry, detection, alpha),
            last_observed_bounds: detection.bounding_box,
            last_observed_at: now,
            last_interval_seconds: interval,
            velocity: lerp_point(self.velocity, observed_velocity, Double::ratio(65, 100)),
            missed_frames: 0,
        }
    }

    fn missed(&self) -> (r: Track)
        ensures
            r@ == self@.missed(),
    {
        Track {
            id: self.id,
            geometry: self.geometry.clone(),
            last_observed_bounds: self.last_observed_bounds,
            last_observed_at: self.last_observed_at,
            last_interval_seconds: self.last_interval_seconds,
            velocity: self.velocity,
            missed_frames: self.missed_frames.saturating_add(1),
        }
    }

    fn face(&self, alpha: Double) -> (r: TrackedFace)
        ensures
            r@ == self@.face(alpha),
    {
        TrackedFace {
            track_id: self.id,
            geometry: self.geometry.clone(),
            velocity_per_second: self.velocity,
            smoothing_lag_seconds: smoothing_lag_seconds(alpha, self.last_interval_seconds),
        }
    }
}

/// One row of the cost matrix.
fn cost_row(
    tracks: &Vec<Track>,
    detections: &Vec<FaceGeometry>,
    now: u64,
    row: usize,
    Ghost(update): Ghost<Update>,
) -> (r: Vec<Double>)
    requires
        update.tracker.tracks == track_views(tracks@),
        update.detections == face_views(detections@),
        update.now == now,
        tracks.len() + detections.len() < usize::MAX,
        row < tracks.len() + detections.len(),
    ensures
        r@ == update.costs()[row as int],
{
    let size: usize = tracks.len() + detections.len();
    let mut costs: Vec<Double> = Vec::new();
    let mut column: usize = 0;
    while column < size
        invariant
            update.tracker.tracks == track_views(tracks@),
            update.detections == face_views(detections@),
            update.now == now,
            size == tracks.len() + detections.len(),
            size < usize::MAX,
            row < size,
            column <= size,
            costs.len() == column,
            forall|j: int| 0 <= j < column ==> #[trigger] costs[j] == update.cost(row as int, j),
        decreases size - column,
    {
        let cost = if row < tracks.len() && column < detections.len() {
            tracks[row].match_cost(&detections[column], now)
        } else if row < tracks.len() {
            if column - detections.len() == row {
                unmatched_cost()
            } else {
                invalid_match_cost()
            }
        } else if column >= detections.len() {
            Double::integer(0)
        } else if column == row - tracks.len() {
            unmatched_cost()
        } else {
            invalid_match_cost()
        };
        proof {
            if row < tracks.len() && column < detections.len() {
                assert(update.tracker.tracks[row as int] == tracks[row as int]@);
                assert(update.detections[column as int] == detections[column as int]@);
            }
            assert(cost == update.cost(row as int, column as int));
        }
        costs.push(cost);
        column += 1;
    }
    assert(costs@ =~= update.costs()[row as int]);
    costs
}

/// The detection that each track is matched with.
fn associate(
    tracks: &Vec<Track>,
    detections: &Vec<FaceGeometry>,
    now: u64,
    Ghost(tracker): Ghost<TrackerView>,
) -> (r: (Vec<Option<usize>>, Ghost<Update>))
    requires
        tracker.tracks == track_views(tracks@),
        tracks.len() + detections.len() < usize::MAX,
    ensures
        r.1@.tracker == tracker,
        r.1@.detections == face_views(detections@),
        r.1@.now == now,
        r.1@.is_optimal(),
        r.0.len() == tracks.len(),
        forall|i: int| 0 <= i < tracks.len() ==> #[trigger] r.0[i] == r.1@.partner(i),
{
    let size: usize = tracks.len() + detections.len();
    let ghost first = Update {
        tracker,
        detections: face_views(detections@),
        now,
        columns: Seq::empty(),
    };
    let mut costs: Vec<Vec<Double>> = Vec::new();
    let mut row: usize = 0;
    while row < size
        invariant
            first.tracker == tracker,
            tracker.tracks == track_views(tracks@),
            first.detections == face_views(detections@),
            first.now == now,
            size == tracks.len() + detections.len(),
            size < usize::MAX,
            row <= size,
            costs.len() == row,
            forall|i: int| 0 <= i < row ==> (#[trigger] costs[i])@ == first.costs()[i],
        decreases size - row,
    {
        costs.push(cost_row(tracks, detections, now, row, Ghost(first)));
        row += 1;
    }
    let columns = hungarian_minimize(&costs);
    let ghost update = Update { columns: columns@, ..first };
    proof {
        assert(update.costs() =~= first.costs()) by {
            assert forall|i: int| 0 <= i < size implies #[trigger] update.costs()[i]
                == first.costs()[i] by {
                assert(update.costs()[i] =~= first.costs()[i]);
            }
        }
        assert(weight::cost_rows(costs@) =~= update.costs());
        assert(weight::weights(update.costs()).len() == size);
    }
    let mut matches: Vec<Option<usize>> = Vec::new();
    let mut i: usize = 0;
    while i < tracks.len()
        invariant
            update.tracker == tracker,
            tracker.tracks == track_views(tracks@),
            update.detections == face_views(detections@),
            update.columns == columns@,
            columns.len() == size,
            costs.len() == size,
            weight::cost_rows(costs@) == update.costs(),
            size == tracks.len() + detections.len(),
            i <= tracks.len(),
            matches.len() == i,
            forall|k: int| 0 <= k < i ==> #[trigger] matches[k] == update.partner(k),
        decreases tracks.len() - i,
    {
        let column: usize = columns[i];
        let mut found: Option<usize> = None;
        if column < detections.len() {
            assert(weight::cost_rows(costs@)[i as int] == costs[i as int]@);
            assert(costs[i as int][column as int] == update.cost(i as int, column as int));
            if costs[i][column].less(Double::integer(500_000)) {
                found = Some(column);
            }
        }
        matches.push(found);
        i += 1;
    }
    (matches, Ghost(update))
}

/// The track that each detection is matched with.
fn owners(matches: &Vec<Option<usize>>, count: usize, Ghost(update): Ghost<Update>) -> (r: Vec<
    Option<usize>,
>)
    requires
        update.detections.len() == count,
        update.tracker.tracks.len() == matches.len(),
        update.is_optimal(),
        forall|i: int| 0 <= i < matches.len() ==> #[trigger] matches[i] == update.partner(i),
    ensures
        r.len() == count,
        forall|d: int|
            0 <= d < count ==> #[trigger] r[d] == if update.is_claimed(d) {
                Some(update.owner(d) as usize)
            } else {
                None
            },
        forall|d: int|
            0 <= d < count && update.is_claimed(d) ==> 0 <= #[trigger] update.owner(d)
                < matches.len(),
{
    let mut found: Vec<Option<usize>> = Vec::new();
    let mut d: usize = 0;
    while d < count
        invariant
            d <= count,
            found.len() == d,
            forall|k: int| 0 <= k < d ==> #[trigger] found[k] is None,
        decreases count - d,
    {
        found.push(None);
        d += 1;
    }
    let mut i: usize = 0;
    while i < matches.len()
        invariant
            update.detections.len() == count,
            update.tracker.tracks.len() == matches.len(),
            update.is_optimal(),
            forall|k: int| 0 <= k < matches.len() ==> #[trigger] matches[k] == update.partner(k),
            found.len() == count,
            i <= matches.len(),
            forall|d: int|
                0 <= d < count ==> match #[trigger] found[d] {
                    Some(k) => k < i && update.paired(k as int, d),
                    None => forall|k: int| 0 <= k < i ==> !update.paired(k, d),
                },
        decreases matches.len() - i,
    {
        let ghost before = found@;
        if let Some(d) = matches[i] {
            assert(update.partner(i as int) == Some(d));
            found.set(d, Some(i));
        }
        proof {
            assert forall|d: int| 0 <= d < count implies match #[trigger] found[d] {
                Some(k) => k < i + 1 && update.paired(k as int, d),
                None => forall|k: int| 0 <= k < i + 1 ==> !update.paired(k, d),
            } by {
                assert(match before[d] {
                    Some(k) => k < i && update.paired(k as int, d),
                    None => forall|k: int| 0 <= k < i ==> !update.paired(k, d),
                });
                if update.paired(i as int, d) {
                    assert(update.partner(i as int) == Some(d as usize));
                }
            }
        }
        i += 1;
    }
    proof {
        assert forall|d: int| 0 <= d < count implies #[trigger] found[d] == if update.is_claimed(d) {
            Some(update.owner(d) as usize)
        } else {
            None
        } by {
            match found[d] {
                Some(k) => {
                    update.lemma_one_owner(k as int, d);
                },
                None => {
                    if update.is_claimed(d) {
                        let k = update.owner(d);
                        assert(update.paired(k, d));
                    }
                },
            }
        }
    }
    found
}

impl Update {
    /// A detection has one owner at most.
    pub(crate) proof fn lemma_one_owner(self, i: int, d: int)
        requires
            self.is_optimal(),
            self.paired(i, d),
        ensures
            self.is_claimed(d),
            self.owner(d) == i,
    {
        let k = self.owner(d);
        assert(self.paired(k, d));
        assert(weight::weights(self.costs()).len() == self.size());
        if k < i {
            assert(self.columns[k] != self.columns[i]);
        } else if i < k {
            assert(self.columns[i] != self.columns[k]);
        }
    }
}

impl Default for FaceTracker {
    fn default() -> (r: Self)
        ensures
            r@ == (TrackerView {
                config: FaceTrackerConfig {
                    max_missed_frames: 15,
                    smoothing_factor: Double::ratio(8, 10),
                },
                next_id: 1,
                tracks: Seq::empty(),
            }),
    {
        let r = FaceTracker {
            config: FaceTrackerConfig::default(),
            next_id: 1,
            tracks: Vec::new(),
            start: reading(),
        };
        assert(r@.tracks =~= Seq::empty());
        r
    }
}

impl FaceTracker {
    pub fn new(config: FaceTrackerConfig) -> (r: Self)
        requires
            config.is_valid(),
        ensures
            r@ == (TrackerView { config, next_id: 1, tracks: Seq::empty() }),
    {
        let r = FaceTracker { config, next_id: 1, tracks: Vec::new(), start: reading() };
        assert(r@.tracks =~= Seq::empty());
        r
    }

    /// The number of faces that are followed.
    pub fn track_count(&self) -> (r: usize)
        ensures
            r == self@.tracks.len(),
    {
        self.tracks.len()
    }

    /// Associates detections that have just been made with existing tracks and returns faces in
    /// detection order.
    pub fn update(&mut self, detections: Vec<FaceGeometry>) -> (r: Vec<TrackedFace>)
        requires
            old(self)@.tracks.len() + detections.len() < usize::MAX,
        ensures
            exists|update: Update|
                {
                    &&& update.tracker == old(self)@
                    &&& update.detections == face_views(detections@)
                    &&& #[trigger] update.is_optimal()
                    &&& final(self)@ == update.next()
                    &&& tracked_views(r@) == update.faces()
                },
    {
        let observed_at: u64 = nanoseconds_since(&self.start);
        self.update_at(detections, observed_at)
    }

    /// Associates detections with existing tracks and returns faces in detection order. The time
    /// of the observation counts in nanoseconds from a start that all updates share.
    pub fn update_at(&mut self, detections: Vec<FaceGeometry>, observed_at: u64) -> (r: Vec<
        TrackedFace,
    >)
        requires
            old(self)@.tracks.len() + detections.len() < usize::MAX,
        ensures
            exists|update: Update|
                {
                    &&& update.tracker == old(self)@
                    &&& update.detections == face_views(detections@)
                    &&& update.now == observed_at
                    &&& #[trigger] update.is_optimal()
                    &&& final(self)@ == update.next()
                    &&& tracked_views(r@) == update.faces()
                },
    {
        let alpha = self.config.smoothing_factor;
        let (matches, Ghost(update)) = associate(
            &self.tracks,
            &detections,
            observed_at,
            Ghost(self@),
        );
        let owners = owners(&matches, detections.len(), Ghost(update));
        let tracks = step_tracks(
            &self.tracks,
            &detections,
            observed_at,
            alpha,
            &matches,
            Ghost(update),
        );
        let mut next_id: u64 = self.next_id;
        let mut started: Vec<Track> = Vec::new();
        let mut faces: Vec<TrackedFace> = Vec::new();
        let mut d: usize = 0;
        while d < detections.len()
            invariant
                update.tracker == old(self)@,
                *self == *old(self),
                update.detections == face_views(detections@),
                update.now == observed_at,
                update.is_optimal(),
                alpha == update.tracker.config.smoothing_factor,
                tracks.len() == update.tracker.tracks.len(),
                forall|i: int| 0 <= i < tracks.len() ==> (#[trigger] tracks[i])@ == update.stepped(i),
                owners.len() == detections.len(),
                forall|k: int|
                    0 <= k < detections.len() ==> #[trigger] owners[k] == if update.is_claimed(k) {
                        Some(update.owner(k) as usize)
                    } else {
                        None
                    },
                forall|k: int|
                    0 <= k < detections.len() && update.is_claimed(k) ==> 0
                        <= #[trigger] update.owner(k) < tracks.len(),
                d <= detections.len(),
                next_id == update.number(started.len() as nat),
                track_views(started@) == update.fresh(d as int),
                faces.len() == d,
                forall|k: int| 0 <= k < d ==> (#[trigger] faces[k])@ == update.face(k),
            decreases detections.len() - d,
        {
            let detection = &detections[d];
            assert(update.detections[d as int] == detection@);
            match owners[d] {
                Some(i) => {
                    proof {
                        let k = update.owner(d as int);
                        assert(update.is_claimed(d as int));
                        assert(update.paired(k, d as int));
                        assert(update.columns[k] == d);
                        assert(update.stepped(k) == tracks[i as int]@);
                    }
                    faces.push(tracks[i].face(alpha));
                },
                None => {
                    let track = Track {
                        id: next_id,
                        geometry: detection.clone(),
                        last_observed_bounds: detection.bounding_box,
                        last_observed_at: observed_at,
                        last_interval_seconds: Double::ratio(1, 30),
                        velocity: Point::zero(),
                        missed_frames: 0,
                    };
                    faces.push(
                        TrackedFace {
                            track_id: next_id,
                            geometry: detection.clone(),
                            velocity_per_second: Point::zero(),
                            smoothing_lag_seconds: Double::integer(0),
                        },
                    );
                    let ghost before = started@;
                    proof {
                        assert(track_views(before).len() == started.len());
                        assert(track@ == TrackView::started(
                            update.number(update.fresh(d as int).len()),
                            update.detections[d as int],
                            update.now,
                        ));
                    }
                    started.push(track);
                    next_id = next_id.saturating_add(1);
                    assert(track_views(started@) =~= track_views(before).push(track@));
                },
            }
            d += 1;
        }
        let kept = retain(tracks, started, self.config.max_missed_frames);
        self.next_id = next_id;
        self.tracks = kept;
        proof {
            assert(update.all_tracks() =~= track_views(tracks@) + track_views(started@));
            assert(self@ =~= update.next());
            assert(tracked_views(faces@) =~= update.faces());
            assert(update.is_optimal());
        }
        faces
    }
}

fn step_tracks(
    tracks: &Vec<Track>,
    detections: &Vec<FaceGeometry>,
    now: u64,
    alpha: Double,
    matches: &Vec<Option<usize>>,
    Ghost(update): Ghost<Update>,
) -> (r: Vec<Track>)
    requires
        update.tracker.tracks == track_views(tracks@),
        update.detections == face_views(detections@),
        update.now == now,
        alpha == update.tracker.config.smoothing_factor,
        matches.len() == tracks.len(),
        forall|i: int| 0 <= i < matches.len() ==> #[trigger] matches[i] == update.partner(i),
    ensures
        r.len() == tracks.len(),
        forall|i: int| 0 <= i < r.len() ==> (#[trigger] r[i])@ == update.stepped(i),
{
    let mut stepped: Vec<Track> = Vec::new();
    let mut i: usize = 0;
    while i < tracks.len()
        invariant
            update.tracker.tracks == track_views(tracks@),
            update.detections == face_views(detections@),
            update.now == now,
            alpha == update.tracker.config.smoothing_factor,
            matches.len() == tracks.len(),
            forall|k: int| 0 <= k < matches.len() ==> #[trigger] matches[k] == update.partner(k),
            i <= tracks.len(),
            stepped.len() == i,
            forall|k: int| 0 <= k < i ==> (#[trigger] stepped[k])@ == update.stepped(k),
        decreases tracks.len() - i,
    {
        assert(update.tracker.tracks[i as int] == tracks[i as int]@);
        assert(matches[i as int] == update.partner(i as int));
        let track = match matches[i] {
            Some(d) => {
                assert(update.detections[d as int] == detections[d as int]@);
                tracks[i].observed(&detections[d], now, alpha)
            },
            None => tracks[i].missed(),
        };
        stepped.push(track);
        i += 1;
    }
    stepped
}

/// The tracks of two lists that have not been missing for more than `limit` updates.
fn retain(first: Vec<Track>, second: Vec<Track>, limit: u32) -> (r: Vec<Track>)
    ensures
        track_views(r@) == surviving(
            track_views(first@) + track_views(second@),
            limit,
            (first.len() + second.len()) as int,
        ),
{
    let mut all: Vec<Track> = first;
    let mut rest: Vec<Track> = second;
    let ghost views = track_views(first@) + track_views(second@);
    all.append(&mut rest);
    assert(track_views(all@) =~= views);
    let mut kept: Vec<Track> = Vec::new();
    let mut i: usize = 0;
    while i < all.len()
        invariant
            i <= all.len(),
            track_views(all@) == views,
            track_views(kept@) == surviving(views, limit, i as int),
        decreases all.len() - i,
    {
        assert(views[i as int] == all[i as int]@);
        if all[i].missed_frames <= limit {
            let ghost before = kept@;
            let track = all[i].copied();
            kept.push(track);
            assert(track_views(kept@) =~= track_views(before).push(track@));
        }
        i += 1;
    }
    kept
}

impl Track {
    fn copied(&self) -> (r: Track)
        ensures
            r@ == self@,
    {
        Track {
            id: self.id,
            geometry: self.geometry.clone(),
            last_observed_bounds: self.last_observed_bounds,
            last_observed_at: self.last_observed_at,
            last_interval_seconds: self.last_interval_seconds,
            velocity: self.velocity,
            missed_frames: self.missed_frames,
        }
    }
}

impl TrackerView {
    /// Numbers grow from track to track, and the next one is greater than all of them, as long as
    /// there is one left.
    pub open spec fn is_numbered(self) -> bool {
        self.next_id < u64::MAX ==> {
            &&& forall|i: int, j: int|
                0 <= i < j < self.tracks.len() ==> self.tracks[i].id < self.tracks[j].id
            &&& forall|i: int| 0 <= i < self.tracks.len() ==> (#[trigger] self.tracks[i]).id < self.next_id
        }
    }
}

/// What survives comes from the tracks, in their order.
proof fn lemma_surviving_from(tracks: Seq<TrackView>, limit: u32, k: int)
    requires
        0 <= k <= tracks.len(),
        forall|i: int, j: int| 0 <= i < j < k ==> tracks[i].id < tracks[j].id,
    ensures
        forall|m: int|
            0 <= m < surviving(tracks, limit, k).len() ==> (exists|i: int|
                0 <= i < k && tracks[i] == #[trigger] surviving(tracks, limit, k)[m]),
        forall|m: int, o: int|
            0 <= m < o < surviving(tracks, limit, k).len() ==> surviving(tracks, limit, k)[m].id
                < surviving(tracks, limit, k)[o].id,
    decreases k,
{
    if k > 0 {
        lemma_surviving_from(tracks, limit, k - 1);
        let rest = surviving(tracks, limit, k - 1);
        let all = surviving(tracks, limit, k);
        assert forall|m: int| 0 <= m < all.len() implies (exists|i: int|
            0 <= i < k && tracks[i] == #[trigger] all[m]) by {
            if m < rest.len() {
                assert(all[m] == rest[m]);
                let i = choose|i: int| 0 <= i < k - 1 && tracks[i] == rest[m];
                assert(0 <= i < k && tracks[i] == all[m]);
            } else {
                assert(tracks[k - 1] == all[m]);
            }
        }
        assert forall|m: int, o: int| 0 <= m < o < all.len() implies all[m].id < all[o].id by {
            if o == rest.len() {
                let i = choose|i: int| 0 <= i < k - 1 && tracks[i] == rest[m];
                assert(tracks[i].id < tracks[k - 1].id);
            }
        }
    }
}

/// What has not been missing for too long survives.
proof fn lemma_survives(tracks: Seq<TrackView>, limit: u32, k: int, i: int)
    requires
        0 <= i < k <= tracks.len(),
        tracks[i].missed_frames <= limit,
    ensures
        surviving(tracks, limit, k).contains(tracks[i]),
    decreases k,
{
    let all = surviving(tracks, limit, k);
    if i == k - 1 {
        assert(all[all.len() - 1] == tracks[i]);
    } else {
        lemma_survives(tracks, limit, k - 1, i);
        let rest = surviving(tracks, limit, k - 1);
        let m = choose|m: int| 0 <= m < rest.len() && rest[m] == tracks[i];
        assert(all[m] == tracks[i]);
    }
}

/// What survives has not been missing for too long.
proof fn lemma_surviving_within(tracks: Seq<TrackView>, limit: u32, k: int)
    requires
        0 <= k <= tracks.len(),
    ensures
        forall|m: int|
            0 <= m < surviving(tracks, limit, k).len() ==> (#[trigger] surviving(
                tracks,
                limit,
                k,
            )[m]).missed_frames <= limit,
    decreases k,
{
    if k > 0 {
        lemma_surviving_within(tracks, limit, k - 1);
    }
}

/// What two boxes share is not negative.
proof fn lemma_overlap_sign(left: BoundingBox, right: BoundingBox)
    ensures
        ({
            let overlap = intersection_over_union(left, right);
            overlap.nan() || !overlap.negative()
        }),
{
    let zero = Double::integer(0);
    let width = motion::shared_width(left, right);
    let height = motion::shared_height(left, right);
    let intersection = width * height;
    let union = left.width * left.height + right.width * right.height - intersection;
    bounds::lemma_zero();
    zero.lemma_order(zero);
    if width.nan() || height.nan() {
        bounds::lemma_no_number(width, height);
        bounds::lemma_no_number(intersection, union);
    } else if union.nan() {
        bounds::lemma_no_number(intersection, union);
    } else if !width.at_most(zero) && !height.at_most(zero) && !union.at_most(
        crate::model::epsilon(),
    ) {
        Double::law_ratios_are_ordered(0, 1, 1, 4503599627370496);
        width.lemma_order(height);
        union.lemma_order(zero);
        bounds::lemma_product_sign(width, height);
        bounds::lemma_quotient_sign(intersection, union);
    }
}

/// A time in seconds is not negative.
proof fn lemma_seconds_sign(earlier: u64, later: u64)
    ensures
        !seconds_between(earlier, later).negative(),
{
    let nanoseconds = (if earlier < later {
        later - earlier
    } else {
        0
    }) as u64;
    let whole = (nanoseconds / 1_000_000_000) as u64;
    let part = (nanoseconds % 1_000_000_000) as u64;
    Double::law_ratios_are_ordered(0, 1, whole, 1);
    Double::law_ratios_are_ordered(whole, 1, whole, 1);
    Double::law_ratios_are_ordered(part, 1, part, 1);
    Double::law_ratios_are_ordered(1_000_000_000, 1, 1_000_000_000, 1);
    bounds::lemma_quotient_sign(Double::integer(part), Double::integer(1_000_000_000));
    bounds::lemma_sum_sign(
        Double::integer(whole),
        Double::integer(part) / Double::integer(1_000_000_000),
    );
}

/// A face that does not move is expected where it was.
proof fn lemma_predicted_at_rest(track: TrackView, now: u64)
    requires
        track.velocity == Point::zero(),
        track.last_observed_bounds.x.is_finite(),
        track.last_observed_bounds.y.is_finite(),
    ensures
        ({
            let predicted = track.predicted_bounds(now);
            let place = track.last_observed_bounds;
            &&& predicted.x.is_finite() && predicted.x.value() == place.x.value()
            &&& predicted.y.is_finite() && predicted.y.value() == place.y.value()
            &&& predicted.width == place.width
            &&& predicted.height == place.height
        }),
{
    let zero = Double { bits: 0 };
    let half = Double::ratio(1, 2);
    let elapsed = seconds_between(track.last_observed_at, now).min(half);
    let place = track.last_observed_bounds;
    bounds::lemma_zero();
    bounds::lemma_ratio_below(1, 2, 4);
    lemma_seconds_sign(track.last_observed_at, now);
    elapsed.lemma_order(half);
    assert(elapsed.is_finite());
    bounds::lemma_zero_product(zero, elapsed);
    bounds::lemma_plus_zero(place.x, zero * elapsed);
    bounds::lemma_plus_zero(place.y, zero * elapsed);
}

/// A face that did not move is not far from where it is expected.
proof fn lemma_same_place(track: TrackView, face: FaceView, now: u64)
    requires
        track.last_observed_bounds == face.bounding_box,
        track.velocity == Point::zero(),
        face.bounding_box.x.is_finite(),
        face.bounding_box.y.is_finite(),
    ensures
        !track.is_far(face, now),
{
    let place = face.bounding_box;
    let predicted = track.predicted_bounds(now);
    lemma_predicted_at_rest(track, now);
    bounds::lemma_moved_alike(predicted.x, place.x, place.width / Double::integer(2));
    bounds::lemma_moved_alike(predicted.y, place.y, place.height / Double::integer(2));
    let from = center(predicted);
    let to = center(place);
    bounds::lemma_hypot_of_nothing(from.x - to.x, from.y - to.y);
    let least = Double::ratio(5, 100);
    let mean = (diagonal(predicted) + diagonal(place)) / Double::integer(2);
    bounds::lemma_ratio_below(5, 100, 1);
    bounds::lemma_ratio_positive(5, 100);
    bounds::lemma_nothing_over(from.distance(to), mean.max(least));
    let distance = relative_distance(predicted, place);
    distance.lemma_order(distance);
    bounds::lemma_ratio_above(125, 100, 10);
    vstd::arithmetic::power2::lemma_pow2_pos(1071);
}

/// A detection that is not too far away costs little.
pub(crate) proof fn lemma_near_cost(track: TrackView, detection: FaceView, now: u64)
    requires
        !track.is_far(detection, now),
        !track.match_cost(detection, now).nan(),
    ensures
        ({
            let cost = track.match_cost(detection, now);
            &&& cost.value() <= 10 * bounds::eighth()
            &&& cost.negative() || cost.is_finite()
            &&& cost.less(Double::integer(500_000))
        }),
{
    let predicted = track.predicted_bounds(now);
    let overlap = intersection_over_union(predicted, detection.bounding_box);
    let distance = relative_distance(predicted, detection.bounding_box);
    let landmarks = match motion::spec_landmark_shape_distance(track.geometry, detection) {
        Some(landmarks) => landmarks,
        None => Double::ratio(1, 2),
    };
    let cost = track.match_cost(detection, now);
    assert(cost == weighted_cost(overlap, distance, landmarks));
    lemma_overlap_sign(predicted, detection.bounding_box);
    lemma_weighted_cost(overlap, distance, landmarks);
    bounds::lemma_ratio_above(500_000, 1, 11);
    vstd::arithmetic::power2::lemma_pow2_pos(1071);
}

/// The terms of a cost are no more than their shares.
proof fn lemma_weighted_cost(overlap: Double, distance: Double, landmarks: Double)
    requires
        overlap.nan() || !overlap.negative(),
        !weighted_cost(overlap, distance, landmarks).nan(),
    ensures
        ({
            let cost = weighted_cost(overlap, distance, landmarks);
            &&& cost.value() <= 10 * bounds::eighth()
            &&& cost.negative() || cost.is_finite()
        }),
{
    let one = Double::integer(1);
    let rest = one - overlap;
    let a = Double::ratio(6, 10) * rest;
    let b = Double::ratio(3, 10) * distance.min(one);
    let c = Double::ratio(1, 10) * landmarks.min(one);
    bounds::lemma_ratio_below(1, 1, 8);
    bounds::lemma_ratio_below(6, 10, 6);
    bounds::lemma_ratio_below(3, 10, 3);
    bounds::lemma_ratio_below(1, 10, 1);
    if (a + b).nan() {
        bounds::lemma_no_number(a + b, c);
    }
    if c.nan() {
        bounds::lemma_no_number(a + b, c);
    }
    if a.nan() || b.nan() {
        bounds::lemma_no_number(a, b);
    }
    if rest.nan() {
        bounds::lemma_no_number(Double::ratio(6, 10), rest);
    }
    if overlap.nan() {
        bounds::lemma_no_number(one, overlap);
    }
    overlap.lemma_order(overlap);
    overlap.lemma_order(overlap.negated());
    bounds::lemma_sum_below(one, overlap.negated(), 8, 0);
    bounds::lemma_share_below(Double::ratio(6, 10), rest, 6);
    distance.lemma_order(one);
    landmarks.lemma_order(one);
    bounds::lemma_share_below(Double::ratio(3, 10), distance.min(one), 3);
    bounds::lemma_share_below(Double::ratio(1, 10), landmarks.min(one), 1);
    bounds::lemma_sum_below(a, b, 6, 3);
    bounds::lemma_sum_below(a + b, c, 9, 1);
}

/// A box of which no number is greater than `2^500`, the sign aside.
pub open spec fn is_moderate(bounds: BoundingBox) -> bool {
    &&& bounds::is_within(bounds.x, 1574)
    &&& bounds::is_within(bounds.y, 1574)
    &&& bounds::is_within(bounds.width, 1574)
    &&& bounds::is_within(bounds.height, 1574)
}

/// What one box shares with another along an axis, of boxes that are not huge.
proof fn lemma_shared_within(a: Double, c: Double, b: Double, d: Double)
    requires
        bounds::is_within(a, 1574),
        bounds::is_within(b, 1574),
        bounds::is_within(c, 1574),
        bounds::is_within(d, 1574),
    ensures
        bounds::is_within((a + c).min(b + d) - a.max(b), 1576),
{
    bounds::lemma_sum_within(a, c, 1574);
    bounds::lemma_sum_within(b, d, 1574);
    bounds::lemma_within_wider(a, 1574, 1575);
    bounds::lemma_within_wider(b, 1574, 1575);
    bounds::lemma_sum_within((a + c).min(b + d), a.max(b), 1575);
}

/// The overlap of boxes that are not huge is a number.
proof fn lemma_overlap_number(left: BoundingBox, right: BoundingBox)
    requires
        is_moderate(left),
        is_moderate(right),
    ensures
        !intersection_over_union(left, right).nan(),
{
    let width = motion::shared_width(left, right);
    let height = motion::shared_height(left, right);
    let intersection = width * height;
    let one = left.width * left.height;
    let two = right.width * right.height;
    let union = one + two - intersection;
    lemma_shared_within(left.x, left.width, right.x, right.width);
    lemma_shared_within(left.y, left.height, right.y, right.height);
    bounds::lemma_product_within(width, height, 1576);
    bounds::lemma_product_within(left.width, left.height, 1574);
    bounds::lemma_product_within(right.width, right.height, 1574);
    bounds::lemma_sum_within(one, two, 2074);
    bounds::lemma_within_wider(one + two, 2075, 2078);
    bounds::lemma_sum_within(one + two, intersection, 2078);
    bounds::lemma_zero();
    if !union.at_most(crate::model::epsilon()) {
        bounds::lemma_ratio_positive(1, 4503599627370496);
        bounds::lemma_quotient_number(intersection, union);
    }
}

/// What it costs to take a detection for the face of a track that does not move is a number, where
/// the boxes are not huge.
pub proof fn law_cost_is_a_number(track: TrackView, detection: FaceView, now: u64)
    requires
        track.velocity == Point::zero(),
        is_moderate(track.last_observed_bounds),
        is_moderate(detection.bounding_box),
    ensures
        !track.match_cost(detection, now).nan(),
{
    let predicted = track.predicted_bounds(now);
    lemma_predicted_at_rest(track, now);
    let place = track.last_observed_bounds;
    predicted.x.lemma_order(place.x);
    predicted.y.lemma_order(place.y);
    lemma_overlap_number(predicted, detection.bounding_box);
    lemma_overlap_sign(predicted, detection.bounding_box);
    let overlap = intersection_over_union(predicted, detection.bounding_box);
    let distance = relative_distance(predicted, detection.bounding_box);
    let landmarks = match motion::spec_landmark_shape_distance(track.geometry, detection) {
        Some(landmarks) => landmarks,
        None => Double::ratio(1, 2),
    };
    lemma_weighted_cost_number(overlap, distance, landmarks);
    bounds::lemma_ratio_positive(1_000_000, 1);
}

/// A weighted cost is a number where the overlap is one.
proof fn lemma_weighted_cost_number(overlap: Double, distance: Double, landmarks: Double)
    requires
        !overlap.nan(),
        !overlap.negative(),
    ensures
        !weighted_cost(overlap, distance, landmarks).nan(),
{
    let one = Double::integer(1);
    let rest = one - overlap;
    let a = Double::ratio(6, 10) * rest;
    let b = Double::ratio(3, 10) * distance.min(one);
    let c = Double::ratio(1, 10) * landmarks.min(one);
    bounds::lemma_ratio_below(1, 1, 8);
    bounds::lemma_ratio_below(6, 10, 6);
    bounds::lemma_ratio_below(3, 10, 3);
    bounds::lemma_ratio_below(1, 10, 1);
    bounds::lemma_ratio_positive(6, 10);
    bounds::lemma_ratio_positive(3, 10);
    bounds::lemma_ratio_positive(1, 10);
    overlap.lemma_order(overlap);
    overlap.lemma_order(overlap.negated());
    distance.lemma_order(one);
    landmarks.lemma_order(one);
    bounds::lemma_sum_number(one, overlap.negated());
    bounds::lemma_sum_below(one, overlap.negated(), 8, 0);
    bounds::lemma_product_number(Double::ratio(6, 10), rest);
    bounds::lemma_product_number(Double::ratio(3, 10), distance.min(one));
    bounds::lemma_product_number(Double::ratio(1, 10), landmarks.min(one));
    bounds::lemma_share_below(Double::ratio(6, 10), rest, 6);
    bounds::lemma_share_below(Double::ratio(3, 10), distance.min(one), 3);
    bounds::lemma_share_below(Double::ratio(1, 10), landmarks.min(one), 1);
    bounds::lemma_sum_number(a, b);
    bounds::lemma_sum_below(a, b, 6, 3);
    bounds::lemma_sum_number(a + b, c);
}

impl Update {
    /// The new tracks are numbered one after the other.
    proof fn lemma_fresh(self, k: int)
        requires
            0 <= k <= self.detections.len(),
        ensures
            self.fresh(k).len() <= k,
            forall|m: int|
                0 <= m < self.fresh(k).len() ==> (#[trigger] self.fresh(k)[m]).id == self.number(
                    m as nat,
                ) && self.fresh(k)[m].missed_frames == 0,
        decreases k,
    {
        if k > 0 {
            self.lemma_fresh(k - 1);
        }
    }

    /// A later detection comes after as many new tracks as an earlier one, and after one more
    /// where the earlier one starts a track.
    proof fn lemma_fresh_grows(self, d: int, k: int)
        requires
            0 <= d <= k <= self.detections.len(),
        ensures
            self.fresh(d).len() <= self.fresh(k).len(),
            d < k && !self.is_claimed(d) ==> self.fresh(d).len() < self.fresh(k).len(),
            d < k && !self.is_claimed(d) ==> self.fresh(k)[self.fresh(d).len() as int]
                == TrackView::started(
                self.number(self.fresh(d).len()),
                self.detections[d],
                self.now,
            ),
        decreases k - d,
    {
        if d + 1 < k {
            self.lemma_fresh_grows(d, k - 1);
        }
    }

    /// All tracks in the order of their numbers, each below the next number.
    proof fn lemma_all_increase(self)
        requires
            self.tracker.is_numbered(),
            self.next().next_id < u64::MAX,
        ensures
            self.tracker.next_id < u64::MAX,
            self.next().next_id == self.tracker.next_id + self.fresh(
                self.detections.len() as int,
            ).len(),
            forall|i: int, j: int|
                0 <= i < j < self.all_tracks().len() ==> self.all_tracks()[i].id
                    < self.all_tracks()[j].id,
            forall|i: int|
                0 <= i < self.all_tracks().len() ==> (#[trigger] self.all_tracks()[i]).id
                    < self.next().next_id,
    {
        let n = self.detections.len() as int;
        let old_count = self.tracker.tracks.len() as int;
        let all = self.all_tracks();
        self.lemma_fresh(n);
        assert forall|i: int| 0 <= i < all.len() implies (#[trigger] all[i]).id == if i
            < old_count {
            self.tracker.tracks[i].id as int
        } else {
            self.tracker.next_id + (i - old_count)
        } by {
            if i < old_count {
                assert(all[i] == self.stepped(i));
            } else {
                assert(all[i] == self.fresh(n)[i - old_count]);
            }
        }
    }

    /// An update keeps the tracks numbered.
    pub proof fn law_numbered(self)
        requires
            self.tracker.is_numbered(),
        ensures
            self.next().is_numbered(),
    {
        if self.next().next_id < u64::MAX {
            self.lemma_all_increase();
            let all = self.all_tracks();
            let limit = self.tracker.config.max_missed_frames;
            lemma_surviving_from(all, limit, all.len() as int);
            assert forall|m: int| 0 <= m < self.next().tracks.len() implies (
            #[trigger] self.next().tracks[m]).id < self.next().next_id by {
                let i = choose|i: int|
                    0 <= i < all.len() && all[i] == surviving(all, limit, all.len() as int)[m];
                assert(all[i].id < self.next().next_id);
            }
        }
    }

    /// A matched detection gets the number of its track: it follows the face, wherever the
    /// detection stands in the order.
    pub proof fn law_matched_keeps_number(self, i: int, d: int)
        requires
            self.is_optimal(),
            self.paired(i, d),
        ensures
            self.faces()[d].track_id == self.tracker.tracks[i].id,
    {
        self.lemma_one_owner(i, d);
    }

    /// An unmatched detection gets a number that no track ever had.
    pub proof fn law_new_number(self, d: int)
        requires
            self.tracker.is_numbered(),
            self.next().next_id < u64::MAX,
            0 <= d < self.detections.len(),
            !self.is_claimed(d),
        ensures
            self.tracker.next_id <= self.faces()[d].track_id < self.next().next_id,
            forall|i: int|
                0 <= i < self.tracker.tracks.len() ==> (#[trigger] self.tracker.tracks[i]).id
                    < self.faces()[d].track_id,
    {
        self.lemma_all_increase();
        self.lemma_fresh_grows(d, self.detections.len() as int);
        self.lemma_fresh(d);
    }

    /// No two faces of an update have the same number.
    pub proof fn law_numbers_differ(self, d: int, e: int)
        requires
            self.is_optimal(),
            self.tracker.is_numbered(),
            self.next().next_id < u64::MAX,
            0 <= d < self.detections.len(),
            0 <= e < self.detections.len(),
            d != e,
        ensures
            self.faces()[d].track_id != self.faces()[e].track_id,
    {
        self.lemma_all_increase();
        if self.is_claimed(d) {
            let i = self.owner(d);
            assert(self.paired(i, d));
            if self.is_claimed(e) {
                let j = self.owner(e);
                assert(self.paired(j, e));
                assert(i != j);
                if i < j {
                    assert(self.tracker.tracks[i].id < self.tracker.tracks[j].id);
                } else {
                    assert(self.tracker.tracks[j].id < self.tracker.tracks[i].id);
                }
            } else {
                self.law_new_number(e);
            }
        } else if self.is_claimed(e) {
            let j = self.owner(e);
            assert(self.paired(j, e));
            self.law_new_number(d);
        } else {
            self.lemma_fresh_grows(d, self.detections.len() as int);
            self.lemma_fresh_grows(e, self.detections.len() as int);
            if d < e {
                self.lemma_fresh_grows(d, e);
            } else {
                self.lemma_fresh_grows(e, d);
            }
        }
    }

    /// A face that is missing stays eligible, as it was, for as many updates as the configuration
    /// says.
    pub proof fn law_short_disappearance(self, i: int)
        requires
            0 <= i < self.tracker.tracks.len(),
            self.partner(i) is None,
            self.tracker.tracks[i].missed_frames < self.tracker.config.max_missed_frames,
        ensures
            self.next().tracks.contains(self.tracker.tracks[i].missed()),
    {
        let all = self.all_tracks();
        assert(all[i] == self.tracker.tracks[i].missed());
        lemma_survives(
            all,
            self.tracker.config.max_missed_frames,
            all.len() as int,
            i,
        );
    }

    /// A face that is missing once more is forgotten: no track has its number any longer.
    pub proof fn law_expired(self, i: int)
        requires
            self.tracker.is_numbered(),
            self.next().next_id < u64::MAX,
            0 <= i < self.tracker.tracks.len(),
            self.partner(i) is None,
            self.tracker.tracks[i].missed_frames >= self.tracker.config.max_missed_frames,
            self.tracker.tracks[i].missed_frames < u32::MAX,
        ensures
            forall|m: int|
                0 <= m < self.next().tracks.len() ==> (#[trigger] self.next().tracks[m]).id
                    != self.tracker.tracks[i].id,
    {
        self.lemma_all_increase();
        let all = self.all_tracks();
        let limit = self.tracker.config.max_missed_frames;
        let left = surviving(all, limit, all.len() as int);
        lemma_surviving_from(all, limit, all.len() as int);
        lemma_surviving_within(all, limit, all.len() as int);
        assert(all[i] == self.tracker.tracks[i].missed());
        assert forall|m: int| 0 <= m < left.len() implies (#[trigger] left[m]).id
            != self.tracker.tracks[i].id by {
            let j = choose|j: int| 0 <= j < all.len() && all[j] == left[m];
            if j < i {
                assert(all[j].id < all[i].id);
            } else if i < j {
                assert(all[i].id < all[j].id);
            } else {
                assert(left[m].missed_frames > limit);
            }
        }
    }

    /// Every face that is returned is followed from then on.
    pub proof fn law_returned_is_followed(self, d: int)
        requires
            0 <= d < self.detections.len(),
        ensures
            exists|m: int|
                0 <= m < self.next().tracks.len() && (#[trigger] self.next().tracks[m]).id
                    == self.faces()[d].track_id && self.next().tracks[m].geometry
                    == self.faces()[d].geometry,
    {
        let all = self.all_tracks();
        let limit = self.tracker.config.max_missed_frames;
        let count = self.tracker.tracks.len() as int;
        let n = self.detections.len() as int;
        let i = if self.is_claimed(d) {
            self.owner(d)
        } else {
            count + self.fresh(d).len() as int
        };
        if self.is_claimed(d) {
            assert(self.paired(i, d));
            assert(all[i] == self.stepped(i));
        } else {
            self.lemma_fresh_grows(d, n);
            assert(all[i] == self.fresh(n)[self.fresh(d).len() as int]);
        }
        lemma_survives(all, limit, all.len() as int, i);
        let left = surviving(all, limit, all.len() as int);
        let m = choose|m: int| 0 <= m < left.len() && left[m] == all[i];
        assert(self.next().tracks[m].id == self.faces()[d].track_id);
    }

    /// The only face that is detected is taken for the only one that is followed, unless it is too
    /// far away.
    pub proof fn law_near_face_is_matched(self)
        requires
            self.is_optimal(),
            self.tracker.tracks.len() == 1,
            self.detections.len() == 1,
            !self.tracker.tracks[0].is_far(self.detections[0], self.now),
            !self.cost(0, 0).nan(),
        ensures
            self.paired(0, 0),
            self.faces()[0].track_id == self.tracker.tracks[0].id,
    {
        let cost = self.cost(0, 0);
        let price = unmatched_cost();
        lemma_near_cost(self.tracker.tracks[0], self.detections[0], self.now);
        bounds::lemma_ratio_above(9, 10, 7);
        bounds::lemma_ratio_below(9, 10, 8);
        bounds::lemma_zero();
        assert(self.costs() =~= seq![seq![cost, price], seq![price, Double { bits: 0 }]]) by {
            assert(self.costs()[0] =~= seq![cost, price]);
            assert(self.costs()[1] =~= seq![price, Double { bits: 0 }]);
        }
        weight::lemma_match_is_cheaper(self.costs(), self.columns, cost, price);
        self.law_matched_keeps_number(0, 0);
    }

    /// An update without detections returns nothing, uses up no number, and leaves the only face
    /// that is followed as it was, until it has been missing for too long.
    proof fn lemma_nothing_detected(self)
        requires
            self.detections.len() == 0,
            self.tracker.tracks.len() <= 1,
        ensures
            self.faces() == Seq::<TrackedView>::empty(),
            self.next().config == self.tracker.config,
            self.next().next_id == self.tracker.next_id,
            self.next().tracks == if self.tracker.tracks.len() == 1
                && self.tracker.tracks[0].missed().missed_frames
                <= self.tracker.config.max_missed_frames {
                seq![self.tracker.tracks[0].missed()]
            } else {
                Seq::empty()
            },
    {
        let all = self.all_tracks();
        let limit = self.tracker.config.max_missed_frames;
        assert(self.fresh(0) =~= Seq::empty());
        assert(all.len() == self.tracker.tracks.len());
        reveal_with_fuel(surviving, 3);
        if all.len() == 1 {
            assert(all[0] == self.tracker.tracks[0].missed());
        }
        assert(self.faces() =~= Seq::<TrackedView>::empty());
        assert(self.next().tracks =~= if self.tracker.tracks.len() == 1
            && self.tracker.tracks[0].missed().missed_frames <= limit {
            seq![self.tracker.tracks[0].missed()]
        } else {
            Seq::empty()
        });
    }

    /// The only face that is detected while none is followed starts a track.
    proof fn lemma_first_detected(self)
        requires
            self.detections.len() == 1,
            self.tracker.tracks.len() == 0,
            self.tracker.next_id < u64::MAX,
        ensures
            self.faces()[0].track_id == self.tracker.next_id,
            self.next().config == self.tracker.config,
            self.next().next_id == self.tracker.next_id + 1,
            self.next().tracks == seq![
                TrackView::started(self.tracker.next_id, self.detections[0], self.now),
            ],
    {
        let track = TrackView::started(self.tracker.next_id, self.detections[0], self.now);
        assert(!self.is_claimed(0));
        reveal_with_fuel(Update::fresh, 3);
        assert(self.fresh(0) =~= Seq::empty());
        assert(self.fresh(1) =~= seq![track]);
        assert(self.all_tracks() =~= seq![track]);
        reveal_with_fuel(surviving, 3);
        assert(self.next().tracks =~= seq![track]);
    }

    /// The updates of `gap` follow this one, each on the one before, and detect nothing.
    pub open spec fn is_followed_by_nothing(self, gap: Seq<Update>) -> bool {
        forall|i: int|
            0 <= i < gap.len() ==> {
                &&& (#[trigger] gap[i]).tracker == self.after(gap, i)
                &&& gap[i].detections.len() == 0
            }
    }

    /// The tracker after this update and the first `i` of `gap`.
    pub open spec fn after(self, gap: Seq<Update>, i: int) -> TrackerView {
        if i <= 0 {
            self.next()
        } else {
            gap[i - 1].next()
        }
    }

    /// The tracker after `i` updates without the face that this one started to follow.
    proof fn lemma_gap(self, gap: Seq<Update>, i: int)
        requires
            self.detections.len() == 1,
            self.tracker.tracks.len() == 0,
            self.tracker.next_id < u64::MAX,
            self.is_followed_by_nothing(gap),
            0 <= i <= gap.len() <= u32::MAX,
        ensures
            self.after(gap, i).config == self.tracker.config,
            self.after(gap, i).next_id == self.tracker.next_id + 1,
            self.after(gap, i).tracks == if i <= self.tracker.config.max_missed_frames {
                seq![
                    TrackView {
                        missed_frames: i as u32,
                        ..TrackView::started(self.tracker.next_id, self.detections[0], self.now)
                    },
                ]
            } else {
                Seq::empty()
            },
        decreases i,
    {
        self.lemma_first_detected();
        if i > 0 {
            self.lemma_gap(gap, i - 1);
            gap[i - 1].lemma_nothing_detected();
        }
    }

    /// A face that is seen again where it was gets its number back, if and only if it was missing
    /// for no more updates than the configuration says. The updates in between return nothing and
    /// use up no number.
    pub proof fn law_seen_again(self, gap: Seq<Update>, again: Update, face: FaceView)
        requires
            self.tracker.tracks.len() == 0,
            self.tracker.next_id < u64::MAX,
            self.detections == seq![face],
            self.is_followed_by_nothing(gap),
            gap.len() <= u32::MAX,
            again.tracker == self.after(gap, gap.len() as int),
            again.detections == seq![face],
            again.is_optimal(),
            face.bounding_box.x.is_finite(),
            face.bounding_box.y.is_finite(),
            !TrackView::started(self.tracker.next_id, face, self.now).match_cost(
                face,
                again.now,
            ).nan(),
        ensures
            again.faces()[0].track_id == self.faces()[0].track_id <==> gap.len()
                <= self.tracker.config.max_missed_frames,
            forall|i: int|
                0 <= i < gap.len() ==> (#[trigger] gap[i]).faces().len() == 0
                    && gap[i].next().next_id == self.next().next_id,
    {
        let n = gap.len() as int;
        self.lemma_first_detected();
        self.lemma_gap(gap, n);
        if n <= self.tracker.config.max_missed_frames {
            let track = again.tracker.tracks[0];
            lemma_same_place(track, face, again.now);
            assert(again.cost(0, 0) == track.match_cost(face, again.now));
            assert(track.match_cost(face, again.now) == TrackView::started(
                self.tracker.next_id,
                face,
                self.now,
            ).match_cost(face, again.now));
            again.law_near_face_is_matched();
        } else {
            if again.tracker.next_id < u64::MAX {
                again.lemma_first_detected();
            } else {
                assert(!again.is_claimed(0));
            }
        }
        assert forall|i: int| 0 <= i < gap.len() implies (#[trigger] gap[i]).faces().len() == 0
            && gap[i].next().next_id == self.next().next_id by {
            self.lemma_gap(gap, i);
            gap[i].lemma_nothing_detected();
        }
    }

    /// The places of the rows of the cost matrix where the detections come in another order.
    pub open spec fn row_order(self, order: Seq<usize>) -> Seq<usize> {
        let tracks = self.tracker.tracks.len();
        Seq::new(
            self.size(),
            |i: int|
                if i < tracks {
                    i as usize
                } else {
                    (tracks + order[i - tracks]) as usize
                },
        )
    }

    /// The places of the columns of the cost matrix where the detections come in another order.
    pub open spec fn column_order(self, order: Seq<usize>) -> Seq<usize> {
        Seq::new(
            self.size(),
            |j: int|
                if j < self.detections.len() {
                    order[j]
                } else {
                    j as usize
                },
        )
    }

    /// The same update where the detections come in another order: at place `d` the one that was
    /// at place `order[d]`, and each matched as it was. `places` gives the new places.
    pub open spec fn reordered(self, order: Seq<usize>, places: Seq<usize>) -> Update {
        Update {
            tracker: self.tracker,
            detections: Seq::new(
                self.detections.len(),
                |d: int| self.detections[order[d] as int],
            ),
            now: self.now,
            columns: Seq::new(
                self.size(),
                |i: int|
                    self.column_order(places)[self.columns[self.row_order(order)[i] as int] as int],
            ),
        }
    }

    /// The order in which the detector lists the faces does not matter: a best matching stays one
    /// when the detections are put in another order, and each track is matched with the same face
    /// and each followed face is returned with the same number and geometry.
    pub proof fn law_order_of_detections(self, order: Seq<usize>, places: Seq<usize>)
        requires
            self.is_optimal(),
            self.size() <= usize::MAX,
            assignment::undoes(places, order, self.detections.len() as int),
        ensures
            self.reordered(order, places).is_optimal(),
            forall|i: int, d: int|
                0 <= d < self.detections.len() ==> (#[trigger] self.reordered(
                    order,
                    places,
                ).paired(i, d) <==> self.paired(i, order[d] as int)),
            forall|i: int|
                0 <= i < self.tracker.tracks.len() ==> #[trigger] self.reordered(
                    order,
                    places,
                ).stepped(i) == self.stepped(i),
            forall|d: int|
                0 <= d < self.detections.len() && self.is_claimed(order[d] as int) ==> (
                #[trigger] self.reordered(order, places).faces()[d]) == self.faces()[order[d] as int],
    {
        let other = self.reordered(order, places);
        let n = self.size() as int;
        let tracks = self.tracker.tracks.len() as int;
        let count = self.detections.len() as int;
        let rows = self.row_order(order);
        let back = self.row_order(places);
        let columns = self.column_order(order);
        let homes = self.column_order(places);
        assert(assignment::undoes(back, rows, n));
        assert(assignment::undoes(homes, columns, n));
        assert(weight::weights(self.costs()).len() == n);
        assert(other.size() == n);
        assert forall|i: int| 0 <= i < n implies #[trigger] columns[other.columns[i] as int]
            == self.columns[rows[i] as int] && other.columns[i] < n by {
            let c = self.columns[rows[i] as int] as int;
            assert(rows[i] < n);
            assert(c < n);
            assert(other.columns[i] == homes[c]);
        }
        assert(assignment::is_permutation(other.columns, n)) by {
            assert forall|i: int, j: int| 0 <= i < j < n implies other.columns[i]
                != other.columns[j] by {
                let x = rows[i] as int;
                let y = rows[j] as int;
                assert(back[x] == i && back[y] == j);
                assert(x != y);
                assert(x < n && y < n);
                if x < y {
                    assert(self.columns[x] != self.columns[y]);
                } else {
                    assert(self.columns[y] != self.columns[x]);
                }
                assert(columns[other.columns[i] as int] != columns[other.columns[j] as int]);
            }
        }
        assert forall|i: int, j: int| 0 <= i < n && 0 <= j < n implies #[trigger] other.cost(i, j)
            == self.cost(rows[i] as int, columns[j] as int) by {
            if tracks <= i && j < count {
                assert(order[i - tracks] == order[j] ==> i - tracks == j) by {
                    assert(places[order[i - tracks] as int] == i - tracks);
                    assert(places[order[j] as int] == j);
                }
            }
        }
        assert forall|i: int, j: int|
            0 <= i < n && 0 <= j < n implies #[trigger] other.costs()[i][j]
            == self.costs()[rows[i] as int][columns[j] as int] by {
            assert(other.cost(i, j) == self.cost(rows[i] as int, columns[j] as int));
            assert(rows[i] < n && columns[j] < n);
        }
        weight::law_order_of_costs(
            self.costs(),
            self.columns,
            other.costs(),
            other.columns,
            rows,
            back,
            columns,
            homes,
        );
        assert forall|i: int, d: int| 0 <= d < count implies (#[trigger] other.paired(i, d)
            <==> self.paired(i, order[d] as int)) by {
            if 0 <= i < tracks {
                assert(rows[i] == i);
                assert(columns[other.columns[i] as int] == self.columns[i]);
                assert(other.cost(i, d) == self.cost(rows[i] as int, columns[d] as int));
                assert(homes[columns[d] as int] == d);
                assert(homes[columns[other.columns[i] as int] as int] == other.columns[i]);
            }
        }
        assert forall|i: int| 0 <= i < tracks implies #[trigger] other.stepped(i) == self.stepped(
            i,
        ) by {
            assert(rows[i] == i);
            let d = other.columns[i] as int;
            assert(columns[d] == self.columns[i]);
            if 0 <= d < count {
                assert(other.paired(i, d) <==> self.paired(i, order[d] as int));
            }
        }
        assert forall|d: int| 0 <= d < count && self.is_claimed(order[d] as int) implies (
        #[trigger] other.faces()[d]) == self.faces()[order[d] as int] by {
            let i = self.owner(order[d] as int);
            assert(self.paired(i, order[d] as int));
            assert(other.paired(i, d));
            other.lemma_one_owner(i, d);
            self.lemma_one_owner(i, order[d] as int);
        }
    }
}

} // verus!
