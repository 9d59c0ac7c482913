//! The handle to the embedding worker: which faces it is sent, and what it makes of them.
//!
//! The handle holds the state that the camera and the worker share. It sends and stores nothing
//! itself: it says what is to be sent or stored, and takes the news of how that went.

use std::collections::HashMap;
use vstd::prelude::*;
use vstd::string::*;
use crate::face_id::capture;
use crate::face_id::capture::{
    capture_quality, CaptureView, FaceCaptureRequest, FaceCaptureStatus, FaceCaptureTarget,
    GuidedCaptureState,
};
use crate::face_id::consensus;
use crate::face_id::consensus::{
    is_clear, is_usable, pose_group, Consensus, ConsensusStep, ConsensusView, Observation,
    ObservationView, SamplesView, TrackSamples,
};
use crate::face_id::gallery;
use crate::face_id::gallery::{CapturedFaceSample, FaceIdDatabaseMode, PoseGroup, SampleView};
use crate::face_id::identity::{FaceIdentityMatch, MatchView};
use crate::model::{FaceGeometry, FaceView};
use crate::single::Single;
use crate::text;
use crate::text::decimal;

verus! {

/// A face for the worker to embed.
#[derive(Debug)]
pub struct FaceIdJob {
    pub track_id: u64,
    pub tensor: Vec<Single>,
    /// The sample that a guided capture asked for.
    pub capture: Option<FaceCaptureRequest>,
    pub quality: Single,
    pub group: PoseGroup,
}

/// How sending a job went.
#[derive(Clone, Copy, Debug, PartialEq, Eq, Structural)]
pub enum SendOutcome {
    Sent,
    Full,
    Disconnected,
}

/// The state that the camera and the worker share.
#[derive(Debug)]
pub struct FaceIdClient {
    tracks: HashMap<u64, TrackSamples>,
    results: HashMap<u64, FaceIdentityMatch>,
    capture: Option<GuidedCaptureState>,
    captured: Vec<CapturedFaceSample>,
}

/// The content of the shared state.
#[verifier::ext_equal]
pub struct ClientView {
    pub tracks: Map<u64, SamplesView>,
    pub results: Map<u64, MatchView>,
    pub capture: Option<CaptureView>,
    /// The samples of a guided capture so far.
    pub captured: Seq<SampleView>,
}

impl View for FaceIdClient {
    type V = ClientView;

    closed spec fn view(&self) -> ClientView {
        ClientView {
            tracks: sample_map(self.tracks@),
            results: match_map(self.results@),
            capture: match self.capture {
                Some(capture) => Some(capture@),
                None => None,
            },
            captured: gallery::sample_views(self.captured@),
        }
    }
}

spec fn sample_map(tracks: Map<u64, TrackSamples>) -> Map<u64, SamplesView> {
    Map::new(|id: u64| tracks.contains_key(id), |id: u64| tracks[id]@)
}

spec fn match_map(results: Map<u64, FaceIdentityMatch>) -> Map<u64, MatchView> {
    Map::new(|id: u64| results.contains_key(id), |id: u64| results[id]@)
}

impl ClientView {
    /// All counts are in order.
    pub open spec fn is_ordered(self) -> bool {
        &&& forall|id: u64| self.tracks.contains_key(id) ==> (#[trigger] self.tracks[id]).is_ordered()
        &&& self.capture matches Some(capture) ==> capture.is_counted()
    }

    /// Whether a face of a track should be sent.
    pub open spec fn wants(self, track_id: u64, face: FaceView, now: u64) -> bool {
        consensus::spec_is_usable(face) && (self.tracks.contains_key(track_id)
            ==> self.tracks[track_id].is_due(now))
    }

    /// The state after a face of a track was sent, or could not be. A full queue is harmless: the
    /// track is left as it was so a later frame can retry.
    pub open spec fn sent(self, track_id: u64, now: u64, outcome: SendOutcome) -> ClientView {
        let known = self.tracks.contains_key(track_id);
        let track = self.tracks[track_id];
        match outcome {
            SendOutcome::Full => self,
            SendOutcome::Sent => if !known {
                self.with_track(track_id, SamplesView::begun(now))
            } else if track.submitted < track.wanted {
                self.with_track(track_id, track.sent(now))
            } else {
                self
            },
            SendOutcome::Disconnected => if !known {
                self.with_track(track_id, SamplesView::abandoned(now))
            } else {
                self.with_track(track_id, SamplesView { finished: true, ..track })
            },
        }
    }

    pub open spec fn with_track(self, track_id: u64, track: SamplesView) -> ClientView {
        ClientView { tracks: self.tracks.insert(track_id, track), ..self }
    }

    /// The state after a track was recognized.
    pub open spec fn identified(self, track_id: u64, result: MatchView) -> ClientView {
        ClientView { results: self.results.insert(track_id, result), ..self }
    }

    /// The state with a change of the guided capture, where there is one.
    pub open spec fn with_capture(self, change: spec_fn(CaptureView) -> CaptureView) -> ClientView {
        ClientView {
            capture: match self.capture {
                Some(capture) => Some(change(capture)),
                None => None,
            },
            ..self
        }
    }

    /// The state with one captured sample more.
    pub open spec fn with_sample(self, sample: SampleView) -> ClientView {
        ClientView { captured: self.captured.push(sample), ..self }
    }

    /// Whether a track's answer still counts.
    pub open spec fn awaits(self, track_id: u64) -> bool {
        self.tracks.contains_key(track_id) && self.tracks[track_id].answered
            < self.tracks[track_id].submitted && !self.tracks[track_id].finished
    }

    /// The state after an answer to a sample of a track.
    pub open spec fn answered(self, track_id: u64, observation: Option<ObservationView>) -> ClientView {
        if self.awaits(track_id) {
            self.with_track(track_id, self.tracks[track_id].heard(observation).weighed())
        } else {
            self
        }
    }
}

/// Checks that a guided capture may write.
pub fn check_capture_mode(mode: FaceIdDatabaseMode, target: &Option<FaceCaptureTarget>) -> (r:
    Result<(), String>)
    ensures
        if *target is Some && mode != FaceIdDatabaseMode::ReadWrite {
            r matches Err(message) && message@ == "guided capture requires a read/write database"@
        } else {
            r is Ok
        },
{
    if target.is_some() && mode != FaceIdDatabaseMode::ReadWrite {
        return Err("guided capture requires a read/write database".to_owned());
    }
    Ok(())
}

impl FaceIdClient {
    /// A client that has seen nothing, with a guided capture where there is someone to capture.
    pub fn new(target: Option<FaceCaptureTarget>) -> (r: Self)
        ensures
            r@ == (ClientView {
                tracks: Map::empty(),
                results: Map::empty(),
                capture: match target {
                    Some(target) => Some(CaptureView::begun(target)),
                    None => None,
                },
                captured: Seq::empty(),
            }),
            r@.is_ordered(),
    {
        let capture = match target {
            Some(target) => Some(GuidedCaptureState::new(target)),
            None => None,
        };
        let r = FaceIdClient {
            tracks: HashMap::new(),
            results: HashMap::new(),
            capture,
            captured: Vec::new(),
        };
        proof {
            assert(r@.tracks =~= Map::empty());
            assert(r@.results =~= Map::empty());
            assert(r@.captured =~= Seq::empty());
        }
        r
    }

    /// Whether a face of a track should be sent: it is good enough, and the track needs another
    /// sample that is due.
    pub fn wants_track(&self, track_id: u64, face: &FaceGeometry, now: u64) -> (r: bool)
        ensures
            r == self@.wants(track_id, face@, now),
    {
        broadcast use vstd::std_specs::hash::group_hash_axioms;

        if !is_usable(face) {
            return false;
        }
        match self.tracks.get(&track_id) {
            Some(track) => track.is_due(now),
            None => true,
        }
    }

    /// The job for a face of a track, where one should be sent and its crop is clear.
    pub fn try_submit(
        &self,
        track_id: u64,
        tensor: Vec<Single>,
        face: &FaceGeometry,
        now: u64,
    ) -> (r: Option<FaceIdJob>)
        ensures
            match r {
                Some(job) => {
                    &&& self@.wants(track_id, face@, now)
                    &&& consensus::spec_is_clear(tensor@)
                    &&& job.track_id == track_id
                    &&& job.tensor@ == tensor@
                    &&& job.capture is None
                    &&& job.quality == capture::spec_capture_quality(face@)
                    &&& job.group == consensus::spec_pose_group(face@)
                },
                None => !(self@.wants(track_id, face@, now) && consensus::spec_is_clear(tensor@)),
            },
    {
        if !self.wants_track(track_id, face, now) || !is_clear(&tensor) {
            return None;
        }
        Some(
            FaceIdJob {
                track_id,
                tensor,
                capture: None,
                quality: capture_quality(face),
                group: pose_group(face),
            },
        )
    }

    /// Takes the news of how sending a job of a track went.
    pub fn submitted(&mut self, track_id: u64, now: u64, outcome: SendOutcome)
        requires
            old(self)@.is_ordered(),
        ensures
            final(self)@ == old(self)@.sent(track_id, now, outcome),
            final(self)@.is_ordered(),
    {
        broadcast use vstd::std_specs::hash::group_hash_axioms;

        let ghost before = self@;
        if outcome == SendOutcome::Full {
            return;
        }
        let ghost map = self.tracks@;
        let track = match self.tracks.remove(&track_id) {
            Some(found) => {
                let mut track = found;
                assert(before.tracks[track_id] == track@);
                assert(before.tracks.contains_key(track_id));
                if outcome == SendOutcome::Disconnected {
                    track.finish();
                } else if track.has_room() {
                    track.sent(now);
                }
                track
            },
            None => {
                assert(!before.tracks.contains_key(track_id));
                if outcome == SendOutcome::Disconnected {
                    TrackSamples::abandon(now)
                } else {
                    TrackSamples::begin(now)
                }
            },
        };
        self.tracks.insert(track_id, track);
        proof {
            assert(self.tracks@ =~= map.insert(track_id, track));
            assert(self@.tracks =~= before.tracks.insert(track_id, track@));
            assert(self@ =~= before.sent(track_id, now, outcome)) by {
                if before.tracks.contains_key(track_id) && outcome == SendOutcome::Sent
                    && before.tracks[track_id].submitted >= before.tracks[track_id].wanted {
                    assert(before.tracks.insert(track_id, track@) =~= before.tracks);
                }
            }
        }
    }

    /// Who a track was recognized as.
    pub fn identity_for_track(&self, track_id: u64) -> (r: Option<FaceIdentityMatch>)
        ensures
            match r {
                Some(result) => self@.results.contains_key(track_id) && self@.results[track_id]
                    == result@,
                None => !self@.results.contains_key(track_id),
            },
    {
        broadcast use vstd::std_specs::hash::group_hash_axioms;

        match self.results.get(&track_id) {
            Some(result) => Some(result.clone()),
            None => None,
        }
    }

    pub fn is_guided_capture(&self) -> (r: bool)
        ensures
            r == self@.capture is Some,
    {
        self.capture.is_some()
    }

    /// What the overlay shows of the guided capture.
    pub fn capture_status(&self) -> (r: Option<FaceCaptureStatus>)
        ensures
            match r {
                Some(status) => self@.capture matches Some(capture) && status.shows(capture),
                None => self@.capture is None,
            },
    {
        match &self.capture {
            Some(capture) => Some(capture.status()),
            None => None,
        }
    }

    /// Shows the only face of a frame to the guided capture, which may ask for a sample of it.
    pub fn capture_request(&mut self, face: &FaceGeometry, now: u64) -> (r: Option<
        FaceCaptureRequest,
    >)
        requires
            old(self)@.is_ordered(),
        ensures
            final(self)@ == old(self)@.with_capture(
                |capture: CaptureView| capture.observed(face@, now),
            ),
            final(self)@.is_ordered(),
            r == match old(self)@.capture {
                Some(capture) => capture.request(face@, now),
                None => None,
            },
    {
        match self.capture.take() {
            Some(found) => {
                let mut capture = found;
                let request = capture.observe(face, now);
                self.capture = Some(capture);
                request
            },
            None => None,
        }
    }

    /// The job for a sample that the guided capture asked for.
    pub fn try_submit_capture(
        &self,
        track_id: u64,
        tensor: Vec<Single>,
        request: FaceCaptureRequest,
    ) -> (r: FaceIdJob)
        ensures
            r.track_id == track_id,
            r.tensor@ == tensor@,
            r.capture == Some(request),
            r.quality == request.quality,
            r.group == PoseGroup::Center,
    {
        FaceIdJob {
            track_id,
            tensor,
            capture: Some(request),
            quality: request.quality,
            group: PoseGroup::Center,
        }
    }

    /// Takes the news of how sending a captured sample went.
    pub fn capture_submitted(&mut self, outcome: SendOutcome)
        requires
            old(self)@.is_ordered(),
        ensures
            final(self)@ == match outcome {
                SendOutcome::Sent => old(self)@,
                SendOutcome::Full => old(self)@.with_capture(
                    |capture: CaptureView| capture.released("embedding queue is busy"@),
                ),
                SendOutcome::Disconnected => old(self)@.with_capture(
                    |capture: CaptureView| capture.released("face-ID worker stopped"@),
                ),
            },
            final(self)@.is_ordered(),
    {
        match outcome {
            SendOutcome::Sent => {},
            SendOutcome::Full => self.release_capture("embedding queue is busy"),
            SendOutcome::Disconnected => self.release_capture("face-ID worker stopped"),
        }
    }

    /// Takes the news that a captured sample was lost.
    pub fn release_capture(&mut self, message: &str)
        requires
            old(self)@.is_ordered(),
        ensures
            final(self)@ == old(self)@.with_capture(
                |capture: CaptureView| capture.released(message@),
            ),
            final(self)@.is_ordered(),
    {
        if let Some(found) = self.capture.take() {
            let mut capture = found;
            capture.release_pending(message);
            self.capture = Some(capture);
        }
    }

    /// Takes the news that a frame does not show exactly one face.
    pub fn report_capture_problem(&mut self, message: &str)
        requires
            old(self)@.is_ordered(),
        ensures
            final(self)@ == old(self)@.with_capture(
                |capture: CaptureView| capture.troubled(message@),
            ),
            final(self)@.is_ordered(),
    {
        if let Some(found) = self.capture.take() {
            let mut capture = found;
            capture.report_problem(message);
            self.capture = Some(capture);
        }
    }
}

/// What the worker is to do after it has embedded a face.
#[derive(Debug)]
pub enum WorkerStep {
    /// Wait for the next job.
    Wait,
    /// Recognize a track by this.
    Identify { consensus: Consensus },
    /// Store all captured samples as this person.
    Commit { target: FaceCaptureTarget },
    /// Report that something went wrong.
    Report { message: String },
}

/// What the worker reports of a job that failed.
pub open spec fn failure(track_id: u64, error: Seq<char>) -> Seq<char> {
    "face-id track="@ + text::spec_decimal(track_id as nat) + " error: "@ + error
}

fn failure_text(track_id: u64, error: &str) -> (r: String)
    ensures
        r@ == failure(track_id, error@),
{
    "face-id track=".to_owned().concat(decimal(track_id).as_str()).concat(" error: ").concat(error)
}

impl FaceIdClient {
    /// The samples of the guided capture so far.
    pub fn captured(&self) -> (r: &Vec<CapturedFaceSample>)
        ensures
            gallery::sample_views(r@) == self@.captured,
    {
        &self.captured
    }

    /// Takes the embedding of a face of a track, or the error that came instead of it.
    fn track_embedded(
        &mut self,
        track_id: u64,
        quality: Single,
        group: PoseGroup,
        embedded: Result<Vec<Single>, String>,
    ) -> (r: WorkerStep)
        requires
            old(self)@.is_ordered(),
        ensures
            final(self)@.is_ordered(),
            ({
                let observation = match embedded {
                    Ok(embedding) => Some(
                        ObservationView { embedding: embedding@, quality, group },
                    ),
                    Err(_) => None,
                };
                let heard = old(self)@.tracks[track_id].heard(observation);
                &&& final(self)@ == old(self)@.answered(track_id, observation)
                &&& match r {
                    WorkerStep::Wait => embedded is Ok && (old(self)@.awaits(track_id)
                        ==> !heard.is_enough()),
                    WorkerStep::Identify { consensus } => embedded is Ok && old(self)@.awaits(
                        track_id,
                    ) && heard.is_enough() && consensus::spec_consensus(heard.observations) == Ok::<
                        ConsensusView,
                        Seq<char>,
                    >(consensus@),
                    WorkerStep::Report { message } => match embedded {
                        Ok(_) => old(self)@.awaits(track_id) && heard.is_enough() && (
                        consensus::spec_consensus(heard.observations) matches Err(error) && message@
                            == failure(track_id, error)),
                        Err(error) => message@ == failure(track_id, error@),
                    },
                    WorkerStep::Commit { .. } => false,
                }
            }),
    {
        broadcast use vstd::std_specs::hash::group_hash_axioms;

        let ghost before = self@;
        let ghost map = self.tracks@;
        let mut failed: Option<String> = None;
        let observation = match embedded {
            Ok(embedding) => Some(Observation { embedding, quality, group }),
            Err(error) => {
                failed = Some(error);
                None
            },
        };
        let ghost view = consensus::optional_view(observation);
        let mut step = WorkerStep::Wait;
        match self.tracks.remove(&track_id) {
            Some(found) => {
                let mut track = found;
                assert(before.tracks[track_id] == track@);
                assert(before.tracks.contains_key(track_id));
                if track.awaits_answer() {
                    step =
                    match track.answer(observation) {
                        ConsensusStep::Wait => WorkerStep::Wait,
                        ConsensusStep::Ready { consensus } => WorkerStep::Identify { consensus },
                        ConsensusStep::Failed { message } => WorkerStep::Report {
                            message: failure_text(track_id, message.as_str()),
                        },
                    };
                }
                self.tracks.insert(track_id, track);
                proof {
                    assert(self.tracks@ =~= map.insert(track_id, track));
                    assert(self@.tracks =~= before.tracks.insert(track_id, track@));
                    if !before.awaits(track_id) {
                        assert(before.tracks.insert(track_id, track@) =~= before.tracks);
                    }
                }
            },
            None => {
                assert(!before.tracks.contains_key(track_id));
                assert(self.tracks@ =~= map);
            },
        }
        assert(self@ =~= before.answered(track_id, view));
        match failed {
            Some(error) => WorkerStep::Report { message: failure_text(track_id, error.as_str()) },
            None => step,
        }
    }

    /// Takes a captured sample that was embedded, or the error that came instead of it.
    fn capture_embedded(
        &mut self,
        track_id: u64,
        request: FaceCaptureRequest,
        embedded: Result<Vec<Single>, String>,
    ) -> (r: WorkerStep)
        requires
            old(self)@.is_ordered(),
        ensures
            final(self)@.is_ordered(),
            match embedded {
                Ok(embedding) => {
                    &&& final(self)@ == old(self)@.with_sample(
                        SampleView {
                            pose: request.pose,
                            embedding: embedding@,
                            quality: request.quality,
                        },
                    ).with_capture(|capture: CaptureView| capture.accepted(request))
                    &&& match final(self)@.capture {
                        Some(capture) => if capture.pose_index >= capture::POSE_COUNT {
                            r matches WorkerStep::Commit { target } && target == capture.target
                        } else {
                            r is Wait
                        },
                        None => r matches WorkerStep::Report { message } && message@
                            == "face-ID capture job has no capture session"@,
                    }
                },
                Err(error) => {
                    &&& final(self)@ == old(self)@.with_capture(
                        |capture: CaptureView|
                            capture.released("embedding failed; hold the pose again"@),
                    )
                    &&& r matches WorkerStep::Report { message }
                    &&& message@ == failure(track_id, error@)
                },
            },
    {
        let embedding = match embedded {
            Ok(embedding) => embedding,
            Err(error) => {
                self.release_capture("embedding failed; hold the pose again");
                return WorkerStep::Report { message: failure_text(track_id, error.as_str()) };
            },
        };
        let ghost before = self@;
        let ghost samples = self.captured@;
        let sample = CapturedFaceSample {
            pose: request.pose,
            embedding,
            quality: request.quality,
        };
        self.captured.push(sample);
        assert(self@.captured =~= before.captured.push(sample@));
        match self.capture.take() {
            Some(found) => {
                let mut capture = found;
                let finished = capture.sample_completed(request);
                let target = capture.target().clone();
                self.capture = Some(capture);
                if finished {
                    WorkerStep::Commit { target }
                } else {
                    WorkerStep::Wait
                }
            },
            None => WorkerStep::Report {
                message: "face-ID capture job has no capture session".to_owned(),
            },
        }
    }

    /// Takes the embedding that a job came to, or the error that came instead of it.
    pub fn embedded(&mut self, job: FaceIdJob, embedded: Result<Vec<Single>, String>) -> (r:
        WorkerStep)
        requires
            old(self)@.is_ordered(),
        ensures
            final(self)@.is_ordered(),
            match (job.capture, embedded) {
                (Some(request), Ok(embedding)) => {
                    &&& final(self)@ == old(self)@.with_sample(
                        SampleView {
                            pose: request.pose,
                            embedding: embedding@,
                            quality: request.quality,
                        },
                    ).with_capture(|capture: CaptureView| capture.accepted(request))
                    &&& match final(self)@.capture {
                        Some(capture) => if capture.pose_index >= capture::POSE_COUNT {
                            r matches WorkerStep::Commit { target } && target == capture.target
                        } else {
                            r is Wait
                        },
                        None => r matches WorkerStep::Report { message } && message@
                            == "face-ID capture job has no capture session"@,
                    }
                },
                (Some(_), Err(error)) => {
                    &&& final(self)@ == old(self)@.with_capture(
                        |capture: CaptureView|
                            capture.released("embedding failed; hold the pose again"@),
                    )
                    &&& r matches WorkerStep::Report { message }
                    &&& message@ == failure(job.track_id, error@)
                },
                (None, Ok(embedding)) => {
                    let observation = ObservationView {
                        embedding: embedding@,
                        quality: job.quality,
                        group: job.group,
                    };
                    let heard = old(self)@.tracks[job.track_id].heard(Some(observation));
                    &&& final(self)@ == old(self)@.answered(job.track_id, Some(observation))
                    &&& if old(self)@.awaits(job.track_id) && heard.is_enough() {
                        match consensus::spec_consensus(heard.observations) {
                            Ok(expected) => r matches WorkerStep::Identify { consensus }
                                && consensus@ == expected,
                            Err(error) => r matches WorkerStep::Report { message } && message@
                                == failure(job.track_id, error),
                        }
                    } else {
                        r is Wait
                    }
                },
                (None, Err(error)) => {
                    &&& final(self)@ == old(self)@.answered(job.track_id, None)
                    &&& r matches WorkerStep::Report { message }
                    &&& message@ == failure(job.track_id, error@)
                },
            },
    {
        match job.capture {
            Some(request) => self.capture_embedded(job.track_id, request, embedded),
            None => self.track_embedded(job.track_id, job.quality, job.group, embedded),
        }
    }

    /// Takes the answer of the gallery for a track.
    pub fn identified(&mut self, track_id: u64, result: FaceIdentityMatch)
        requires
            old(self)@.is_ordered(),
        ensures
            final(self)@ == old(self)@.identified(track_id, result@),
            final(self)@.is_ordered(),
    {
        broadcast use vstd::std_specs::hash::group_hash_axioms;

        let ghost before = self@;
        let ghost map = self.results@;
        self.results.insert(track_id, result);
        proof {
            assert(self.results@ =~= map.insert(track_id, result));
            assert(self@.results =~= before.results.insert(track_id, result@));
        }
    }

    /// Takes the news that all captured samples have been stored as a person.
    pub fn capture_committed(&mut self, track_id: u64, identity: FaceIdentityMatch)
        requires
            old(self)@.is_ordered(),
        ensures
            final(self)@ == old(self)@.with_capture(
                |capture: CaptureView| capture.saved(identity@.display_name()),
            ).identified(track_id, identity@),
            final(self)@.is_ordered(),
    {
        if let Some(found) = self.capture.take() {
            let mut capture = found;
            capture.complete(identity.clone());
            self.capture = Some(capture);
        }
        self.identified(track_id, identity);
    }

    /// Takes the news that the captured samples could not be stored.
    pub fn commit_failed(&mut self, error: &str)
        requires
            old(self)@.is_ordered(),
        ensures
            final(self)@ == old(self)@.with_capture(
                |capture: CaptureView| capture.released("database error: "@ + error@),
            ),
            final(self)@.is_ordered(),
    {
        let message = "database error: ".to_owned().concat(error);
        self.release_capture(message.as_str());
    }
}

impl ClientView {
    /// A track is sampled at intervals: a new one at once, where its face is good enough; after a
    /// sample was sent not again before ninety milliseconds have passed; never once it is
    /// finished. A sample that found the queue full changes nothing, and one that found nobody to
    /// take it ends the track.
    pub proof fn law_tracks_are_sampled_at_intervals(
        self,
        track_id: u64,
        face: FaceView,
        now: u64,
        later: u64,
    )
        ensures
            !consensus::spec_is_usable(face) ==> !self.wants(track_id, face, now),
            consensus::spec_is_usable(face) && !self.tracks.contains_key(track_id) ==> self.wants(
                track_id,
                face,
                now,
            ),
            !self.tracks.contains_key(track_id) && consensus::spec_is_usable(face) ==> self.sent(
                track_id,
                now,
                SendOutcome::Sent,
            ).wants(track_id, face, later) == (later - now >= 90_000_000),
            self.wants(track_id, face, now) && self.sent(track_id, now, SendOutcome::Sent).wants(
                track_id,
                face,
                later,
            ) ==> later - now >= 90_000_000,
            self.sent(track_id, now, SendOutcome::Full) == self,
            !self.sent(track_id, now, SendOutcome::Disconnected).wants(track_id, face, later),
            self.tracks.contains_key(track_id) && self.tracks[track_id].finished ==> !self.wants(
                track_id,
                face,
                now,
            ),
    {
    }
}

} // verus!
