//! Guided capture: five poses, three samples each, one face.

use vstd::prelude::*;
use vstd::string::*;
use crate::double::Double;
use crate::face_id::identity::FaceIdentityMatch;
use crate::model;
use crate::model::{epsilon, region_center, FaceGeometry, FaceView, LandmarkKind};
use crate::rounding;
use crate::single::Single;
use crate::text;
use crate::text::decimal;

verus! {

/// How many samples each pose needs.
pub const CAPTURE_SAMPLES_PER_POSE: usize = 3;

/// How many poses there are.
pub const POSE_COUNT: usize = 5;

/// How long a pose must be held, in nanoseconds.
pub const CAPTURE_HOLD_DURATION: u64 = 350_000_000;

/// Who is captured.
#[derive(Debug, PartialEq, Eq)]
pub enum FaceCaptureTarget {
    New { name: String },
    Existing { person_id: u64 },
}

impl Clone for FaceCaptureTarget {
    fn clone(&self) -> (r: Self)
        ensures
            r == *self,
    {
        match self {
            FaceCaptureTarget::New { name } => FaceCaptureTarget::New { name: name.clone() },
            FaceCaptureTarget::Existing { person_id } => FaceCaptureTarget::Existing {
                person_id: *person_id,
            },
        }
    }
}

impl FaceCaptureTarget {
    /// What the person is called while the capture runs.
    pub open spec fn spec_subject(self) -> Seq<char> {
        match self {
            FaceCaptureTarget::New { name } => name@,
            FaceCaptureTarget::Existing { person_id } => "Person "@ + text::spec_decimal(
                person_id as nat,
            ),
        }
    }

    pub fn subject(&self) -> (r: String)
        ensures
            r@ == self.spec_subject(),
    {
        match self {
            FaceCaptureTarget::New { name } => name.clone(),
            FaceCaptureTarget::Existing { person_id } => "Person ".to_owned().concat(
                decimal(*person_id).as_str(),
            ),
        }
    }
}

#[derive(Clone, Copy, Debug, PartialEq, Eq, Structural)]
pub enum CapturePose {
    Center,
    Left,
    Right,
    Up,
    Down,
}

impl CapturePose {
    /// The pose of a number, in the order of capture; the last one beyond it.
    pub open spec fn spec_at(index: int) -> CapturePose {
        if index <= 0 {
            CapturePose::Center
        } else if index == 1 {
            CapturePose::Left
        } else if index == 2 {
            CapturePose::Right
        } else if index == 3 {
            CapturePose::Up
        } else {
            CapturePose::Down
        }
    }

    pub fn at(index: usize) -> (r: CapturePose)
        ensures
            r == Self::spec_at(index as int),
    {
        match index {
            0 => CapturePose::Center,
            1 => CapturePose::Left,
            2 => CapturePose::Right,
            3 => CapturePose::Up,
            _ => CapturePose::Down,
        }
    }

    /// What the database calls a pose.
    #[verifier::allow_in_spec]
    pub fn database_label(self) -> &'static str
        returns
            (match self {
                CapturePose::Center => "center",
                CapturePose::Left => "left",
                CapturePose::Right => "right",
                CapturePose::Up => "up",
                CapturePose::Down => "down",
            }),
    {
        match self {
            CapturePose::Center => "center",
            CapturePose::Left => "left",
            CapturePose::Right => "right",
            CapturePose::Up => "up",
            CapturePose::Down => "down",
        }
    }

    /// What the overlay asks for.
    #[verifier::allow_in_spec]
    pub fn instruction(self) -> &'static str
        returns
            (match self {
                CapturePose::Center => "LOOK STRAIGHT",
                CapturePose::Left => "TURN LEFT",
                CapturePose::Right => "TURN RIGHT",
                CapturePose::Up => "LOOK UP",
                CapturePose::Down => "LOOK DOWN",
            }),
    {
        match self {
            CapturePose::Center => "LOOK STRAIGHT",
            CapturePose::Left => "TURN LEFT",
            CapturePose::Right => "TURN RIGHT",
            CapturePose::Up => "LOOK UP",
            CapturePose::Down => "LOOK DOWN",
        }
    }
}

/// What the overlay shows of a capture.
#[derive(Clone, Debug)]
pub struct FaceCaptureStatus {
    pub subject: String,
    pub instruction: String,
    pub pose_number: usize,
    pub pose_count: usize,
    pub samples: usize,
    pub samples_required: usize,
    pub yaw_degrees: Option<Double>,
    pub pitch_degrees: Option<Double>,
    pub pitch_estimated: bool,
    pub quality: Single,
    pub message: String,
    /// Whether the message is a warning.
    pub alert: bool,
    pub completed: bool,
}

impl FaceCaptureStatus {
    /// The status is that of a capture.
    pub open spec fn shows(self, capture: CaptureView) -> bool {
        &&& self.subject@ == capture.target.spec_subject()
        &&& self.instruction@ == if capture.completed {
            "CAPTURE COMPLETE"@
        } else {
            CapturePose::spec_at(capture.pose_index as int).instruction()@
        }
        &&& self.pose_number == if capture.pose_index < POSE_COUNT {
            capture.pose_index + 1
        } else {
            POSE_COUNT as int
        }
        &&& self.pose_count == POSE_COUNT
        &&& self.samples == capture.samples
        &&& self.samples_required == CAPTURE_SAMPLES_PER_POSE
        &&& self.yaw_degrees == capture.yaw_degrees
        &&& self.pitch_degrees == capture.pitch_degrees
        &&& self.pitch_estimated == capture.pitch_estimated
        &&& self.quality == capture.quality
        &&& self.message@ == capture.message
        &&& self.alert == capture.alert
        &&& self.completed == capture.completed
    }
}

/// A sample that a capture asks for.
#[derive(Clone, Copy, Debug, PartialEq, Eq, Structural)]
pub struct FaceCaptureRequest {
    pub pose: CapturePose,
    pub quality: Single,
    pub yaw_degrees: Double,
    pub pitch_degrees: Double,
    pub vertical_proxy: Option<Double>,
}

/// The progress of a capture.
#[derive(Debug)]
pub struct GuidedCaptureState {
    target: FaceCaptureTarget,
    pose_index: usize,
    samples: usize,
    stable_since: Option<u64>,
    pending: bool,
    horizontal_sign: Option<Double>,
    vertical_sign: Option<Double>,
    neutral_vertical: Option<Double>,
    yaw_degrees: Option<Double>,
    pitch_degrees: Option<Double>,
    pitch_estimated: bool,
    quality: Single,
    message: String,
    alert: bool,
    completed_identity: Option<FaceIdentityMatch>,
}

/// The content of a capture's progress.
#[verifier::ext_equal]
pub struct CaptureView {
    pub target: FaceCaptureTarget,
    pub pose_index: usize,
    pub samples: usize,
    /// Since when the pose has been held.
    pub stable_since: Option<u64>,
    /// Whether a sample has been asked for and not come back.
    pub pending: bool,
    /// The sign of the yaw to the left.
    pub horizontal_sign: Option<Double>,
    /// The sign of the pitch upwards.
    pub vertical_sign: Option<Double>,
    pub neutral_vertical: Option<Double>,
    pub yaw_degrees: Option<Double>,
    pub pitch_degrees: Option<Double>,
    pub pitch_estimated: bool,
    pub quality: Single,
    pub message: Seq<char>,
    pub alert: bool,
    /// Whether the person has been saved.
    pub completed: bool,
}

impl View for GuidedCaptureState {
    type V = CaptureView;

    closed spec fn view(&self) -> CaptureView {
        CaptureView {
            target: self.target,
            pose_index: self.pose_index,
            samples: self.samples,
            stable_since: self.stable_since,
            pending: self.pending,
            horizontal_sign: self.horizontal_sign,
            vertical_sign: self.vertical_sign,
            neutral_vertical: self.neutral_vertical,
            yaw_degrees: self.yaw_degrees,
            pitch_degrees: self.pitch_degrees,
            pitch_estimated: self.pitch_estimated,
            quality: self.quality,
            message: self.message@,
            alert: self.alert,
            completed: self.completed_identity is Some,
        }
    }
}

impl CaptureView {
    /// A capture that has just begun.
    pub open spec fn begun(target: FaceCaptureTarget) -> CaptureView {
        CaptureView {
            target,
            pose_index: 0,
            samples: 0,
            stable_since: None,
            pending: false,
            horizontal_sign: None,
            vertical_sign: None,
            neutral_vertical: None,
            yaw_degrees: None,
            pitch_degrees: None,
            pitch_estimated: false,
            quality: Single::integer(0),
            message: "find the pose and hold still"@,
            alert: false,
            completed: false,
        }
    }

    /// Samples are counted up to what a pose needs.
    pub open spec fn is_counted(self) -> bool {
        self.samples <= CAPTURE_SAMPLES_PER_POSE
    }

    /// Nothing is asked for any more: a sample is on its way, the person has been saved, or all
    /// poses have been captured.
    pub open spec fn is_waiting(self) -> bool {
        self.pending || self.completed || self.pose_index >= POSE_COUNT
    }

    /// The pitch from where the nose stands between eyes and mouth, against what that was in the
    /// straight samples.
    pub open spec fn estimated_pitch(self, proxy: Option<Double>) -> Option<Double> {
        match (self.neutral_vertical, proxy) {
            (Some(neutral), Some(current)) => Some((current - neutral) * Double::integer(200)),
            (None, Some(_)) => if self.pose_index == 0 {
                Some(Double::integer(0))
            } else {
                None
            },
            _ => None,
        }
    }

    /// The capture with what a face shows.
    pub open spec fn seen(self, face: FaceView) -> CaptureView {
        let native = degrees(face.pitch_radians);
        let estimated = self.estimated_pitch(spec_vertical_pose_proxy(face));
        CaptureView {
            yaw_degrees: degrees(face.yaw_radians),
            pitch_degrees: if native is Some {
                native
            } else {
                estimated
            },
            pitch_estimated: native is None && estimated is Some,
            quality: spec_capture_quality(face),
            ..self
        }
    }

    /// The capture with a warning: the pose has to be found anew.
    pub open spec fn warned(self, message: Seq<char>) -> CaptureView {
        CaptureView { message, alert: true, stable_since: None, ..self }
    }

    /// Why a face that was seen is no sample.
    pub open spec fn objection(self) -> Option<Seq<char>> {
        let pose = CapturePose::spec_at(self.pose_index as int);
        match (self.yaw_degrees, self.pitch_degrees) {
            (None, _) => Some("yaw is unavailable"@),
            (_, None) => Some("pitch is unavailable"@),
            (Some(yaw), Some(pitch)) => if self.quality.less(Single::ratio(65, 100)) {
                Some("move closer and improve lighting"@)
            } else if !pose_matches(pose, yaw, pitch, self.horizontal_sign, self.vertical_sign) {
                Some(pose_guidance(pose, yaw, pitch, self.horizontal_sign, self.vertical_sign)@)
            } else {
                None
            },
        }
    }

    /// Since when the pose has been held, if it is held at `now`.
    pub open spec fn held_since(self, now: u64) -> u64 {
        match self.stable_since {
            Some(since) => since,
            None => now,
        }
    }

    /// Whether the pose has been held for long enough.
    pub open spec fn is_steady(self, now: u64) -> bool {
        now - self.held_since(now) >= CAPTURE_HOLD_DURATION
    }

    /// The capture after a face was seen at `now`.
    pub open spec fn observed(self, face: FaceView, now: u64) -> CaptureView {
        let seen = self.seen(face);
        if self.is_waiting() {
            if self.pose_index >= POSE_COUNT && !self.completed {
                CaptureView { message: "saving enrollment..."@, alert: false, ..self }
            } else {
                self
            }
        } else if seen.objection() is Some {
            seen.warned(seen.objection()->0)
        } else if self.is_steady(now) {
            CaptureView {
                pending: true,
                stable_since: None,
                message: "capturing sample..."@,
                alert: false,
                ..seen
            }
        } else {
            CaptureView {
                stable_since: Some(self.held_since(now)),
                message: "HOLD STILL..."@,
                alert: false,
                ..seen
            }
        }
    }

    /// The sample that is asked for when a face was seen at `now`.
    pub open spec fn request(self, face: FaceView, now: u64) -> Option<FaceCaptureRequest> {
        let seen = self.seen(face);
        if self.is_waiting() || seen.objection() is Some || !self.is_steady(now) {
            None
        } else {
            Some(
                FaceCaptureRequest {
                    pose: CapturePose::spec_at(self.pose_index as int),
                    quality: seen.quality,
                    yaw_degrees: seen.yaw_degrees->0,
                    pitch_degrees: seen.pitch_degrees->0,
                    vertical_proxy: spec_vertical_pose_proxy(face),
                },
            )
        }
    }

    /// What the straight samples say of the nose's place, with one sample more.
    pub open spec fn calibrated(self, request: FaceCaptureRequest) -> Option<Double> {
        match (request.pose, request.vertical_proxy) {
            (CapturePose::Center, Some(proxy)) => match self.neutral_vertical {
                Some(neutral) => Some(running_mean(neutral, self.samples, proxy)),
                None => Some(proxy),
            },
            _ => self.neutral_vertical,
        }
    }

    /// The capture after a sample came back.
    pub open spec fn accepted(self, request: FaceCaptureRequest) -> CaptureView {
        let full = self.samples + 1 >= CAPTURE_SAMPLES_PER_POSE;
        CaptureView {
            neutral_vertical: self.calibrated(request),
            horizontal_sign: if request.pose == CapturePose::Left && self.horizontal_sign is None {
                Some(request.yaw_degrees.signum())
            } else {
                self.horizontal_sign
            },
            vertical_sign: if request.pose == CapturePose::Up && self.vertical_sign is None {
                Some(request.pitch_degrees.signum())
            } else {
                self.vertical_sign
            },
            pending: false,
            message: "sample accepted"@,
            alert: false,
            samples: (if full {
                0
            } else {
                self.samples + 1
            }) as usize,
            pose_index: (if !full {
                self.pose_index as int
            } else if self.pose_index < usize::MAX {
                self.pose_index + 1
            } else {
                usize::MAX as int
            }) as usize,
            ..self
        }
    }

    /// The capture after a sample was lost.
    pub open spec fn released(self, message: Seq<char>) -> CaptureView {
        CaptureView { pending: false, ..self.warned(message) }
    }

    /// The capture after the camera did not show exactly one face.
    pub open spec fn troubled(self, message: Seq<char>) -> CaptureView {
        if self.completed {
            self
        } else {
            self.warned(message)
        }
    }

    /// The capture after the person was saved under a name.
    pub open spec fn saved(self, name: Seq<char>) -> CaptureView {
        CaptureView {
            pose_index: (POSE_COUNT - 1) as usize,
            samples: CAPTURE_SAMPLES_PER_POSE,
            pending: false,
            message: "saved as "@ + name,
            alert: false,
            completed: true,
            ..self
        }
    }
}

/// The mean of `count` values with the mean `mean` and one more.
#[verifier::allow_in_spec]
pub fn running_mean(mean: Double, count: usize, value: Double) -> Double
    returns
        (mean * Double::integer(count as u64) + value) / (Double::integer(count as u64)
            + Double::integer(1)),
{
    (mean * Double::integer(count as u64) + value) / (Double::integer(count as u64)
        + Double::integer(1))
}

/// An angle in degrees.
#[verifier::allow_in_spec]
pub fn degrees(radians: Option<Double>) -> Option<Double>
    returns
        (match radians {
            Some(angle) => Some(angle.to_degrees()),
            None => None,
        }),
{
    match radians {
        Some(angle) => Some(angle.to_degrees()),
        None => None,
    }
}

impl GuidedCaptureState {
    pub fn new(target: FaceCaptureTarget) -> (r: Self)
        ensures
            r@ == CaptureView::begun(target),
    {
        GuidedCaptureState {
            target,
            pose_index: 0,
            samples: 0,
            stable_since: None,
            pending: false,
            horizontal_sign: None,
            vertical_sign: None,
            neutral_vertical: None,
            yaw_degrees: None,
            pitch_degrees: None,
            pitch_estimated: false,
            quality: Single::integer(0),
            message: "find the pose and hold still".to_owned(),
            alert: false,
            completed_identity: None,
        }
    }

    /// Who is captured.
    pub fn target(&self) -> (r: &FaceCaptureTarget)
        ensures
            *r == self@.target,
    {
        &self.target
    }

    /// How many samples of the current pose there are.
    pub fn samples(&self) -> (r: usize)
        ensures
            r == self@.samples,
    {
        self.samples
    }

    /// What the straight samples say of the nose's place between mouth and eyes.
    pub fn neutral_vertical(&self) -> (r: Option<Double>)
        ensures
            r == self@.neutral_vertical,
    {
        self.neutral_vertical
    }

    /// What the overlay shows.
    pub fn status(&self) -> (r: FaceCaptureStatus)
        ensures
            r.shows(self@),
    {
        let completed = self.completed_identity.is_some();
        let instruction = if completed {
            "CAPTURE COMPLETE".to_owned()
        } else {
            CapturePose::at(self.pose_index).instruction().to_owned()
        };
        let pose_number: usize = if self.pose_index < POSE_COUNT {
            self.pose_index + 1
        } else {
            POSE_COUNT
        };
        FaceCaptureStatus {
            subject: self.target.subject(),
            instruction,
            pose_number,
            pose_count: POSE_COUNT,
            samples: self.samples,
            samples_required: CAPTURE_SAMPLES_PER_POSE,
            yaw_degrees: self.yaw_degrees,
            pitch_degrees: self.pitch_degrees,
            pitch_estimated: self.pitch_estimated,
            quality: self.quality,
            message: self.message.clone(),
            alert: self.alert,
            completed,
        }
    }

    fn estimated_pitch(&self, proxy: Option<Double>) -> (r: Option<Double>)
        ensures
            r == self@.estimated_pitch(proxy),
    {
        match (self.neutral_vertical, proxy) {
            (Some(neutral), Some(current)) => Some((current - neutral) * Double::integer(200)),
            (None, Some(_)) => {
                if self.pose_index == 0 {
                    Some(Double::integer(0))
                } else {
                    None
                }
            },
            _ => None,
        }
    }

    fn warn(&mut self, message: &str)
        ensures
            final(self)@ == old(self)@.warned(message@),
    {
        self.message = message.to_owned();
        self.alert = true;
        self.stable_since = None;
    }

    /// Takes a face that the camera shows at `now`, in nanoseconds: asks for a sample once the
    /// pose has been held for long enough.
    pub fn observe(&mut self, face: &FaceGeometry, now: u64) -> (r: Option<FaceCaptureRequest>)
        ensures
            final(self)@ == old(self)@.observed(face@, now),
            r == old(self)@.request(face@, now),
    {
        if self.pending || self.completed_identity.is_some() || self.pose_index >= POSE_COUNT {
            if self.pose_index >= POSE_COUNT && self.completed_identity.is_none() {
                self.message = "saving enrollment...".to_owned();
                self.alert = false;
            }
            return None;
        }
        let vertical_proxy = vertical_pose_proxy(face);
        let native = degrees(face.pitch_radians);
        let estimated = self.estimated_pitch(vertical_proxy);
        self.yaw_degrees = degrees(face.yaw_radians);
        self.pitch_degrees = if native.is_some() {
            native
        } else {
            estimated
        };
        self.pitch_estimated = native.is_none() && estimated.is_some();
        self.quality = capture_quality(face);
        let pose = CapturePose::at(self.pose_index);
        let yaw = match self.yaw_degrees {
            Some(yaw) => yaw,
            None => {
                self.warn("yaw is unavailable");
                return None;
            },
        };
        let pitch = match self.pitch_degrees {
            Some(pitch) => pitch,
            None => {
                self.warn("pitch is unavailable");
                return None;
            },
        };
        if self.quality.less(Single::ratio(65, 100)) {
            self.warn("move closer and improve lighting");
            return None;
        }
        if !pose_matches(pose, yaw, pitch, self.horizontal_sign, self.vertical_sign) {
            self.warn(pose_guidance(pose, yaw, pitch, self.horizontal_sign, self.vertical_sign));
            return None;
        }
        let since: u64 = match self.stable_since {
            Some(since) => since,
            None => now,
        };
        self.alert = false;
        if now < since || now - since < CAPTURE_HOLD_DURATION {
            self.stable_since = Some(since);
            self.message = "HOLD STILL...".to_owned();
            return None;
        }
        self.pending = true;
        self.stable_since = None;
        self.message = "capturing sample...".to_owned();
        Some(
            FaceCaptureRequest {
                pose,
                quality: self.quality,
                yaw_degrees: yaw,
                pitch_degrees: pitch,
                vertical_proxy,
            },
        )
    }

    /// Takes a sample that came back, and tells whether it was the last one.
    pub fn sample_completed(&mut self, request: FaceCaptureRequest) -> (r: bool)
        requires
            old(self)@.is_counted(),
        ensures
            final(self)@ == old(self)@.accepted(request),
            final(self)@.is_counted(),
            r == (final(self)@.pose_index >= POSE_COUNT),
    {
        if let (CapturePose::Center, Some(proxy)) = (request.pose, request.vertical_proxy) {
            self.neutral_vertical = match self.neutral_vertical {
                Some(neutral) => Some(running_mean(neutral, self.samples, proxy)),
                None => Some(proxy),
            };
        }
        if request.pose == CapturePose::Left && self.horizontal_sign.is_none() {
            self.horizontal_sign = Some(request.yaw_degrees.signum());
        }
        if request.pose == CapturePose::Up && self.vertical_sign.is_none() {
            self.vertical_sign = Some(request.pitch_degrees.signum());
        }
        self.pending = false;
        self.message = "sample accepted".to_owned();
        self.alert = false;
        self.samples += 1;
        if self.samples >= CAPTURE_SAMPLES_PER_POSE {
            self.samples = 0;
            self.pose_index = self.pose_index.saturating_add(1);
        }
        self.pose_index >= POSE_COUNT
    }

    /// Takes the news that a sample was lost.
    pub fn release_pending(&mut self, message: &str)
        ensures
            final(self)@ == old(self)@.released(message@),
    {
        self.warn(message);
        self.pending = false;
    }

    /// Takes the news that the camera does not show exactly one face.
    pub fn report_problem(&mut self, message: &str)
        ensures
            final(self)@ == old(self)@.troubled(message@),
    {
        if self.completed_identity.is_none() {
            self.warn(message);
        }
    }

    /// Takes the identity that the person was saved as.
    pub fn complete(&mut self, identity: FaceIdentityMatch)
        ensures
            final(self)@ == old(self)@.saved(identity@.display_name()),
    {
        self.pose_index = POSE_COUNT - 1;
        self.samples = CAPTURE_SAMPLES_PER_POSE;
        self.pending = false;
        self.message = "saved as ".to_owned().concat(identity.display_name().as_str());
        self.alert = false;
        self.completed_identity = Some(identity);
    }
}

/// How well a face can be captured, from its confidence, its size and its roll.
pub open spec fn spec_capture_quality(face: FaceView) -> Single {
    (face.confidence * Single::ratio(4, 10) + face.landmark_confidence * Single::ratio(3, 10)
        + size_score(face.bounding_box.width, face.bounding_box.height) * Single::ratio(2, 10)
        + roll_score(face.roll_radians) * Single::ratio(1, 10)).clamp(
        Single::integer(0),
        Single::integer(1),
    )
}

/// One for a face that covers eight hundredths of the image or more.
#[verifier::allow_in_spec]
pub fn size_score(width: Double, height: Double) -> Single
    returns
        ((width * height) / Double::ratio(8, 100)).min(Double::integer(1)).to_single(),
{
    ((width * height) / Double::ratio(8, 100)).min(Double::integer(1)).to_single()
}

/// One for an upright face, zero for one that is rolled by thirty-five degrees or more.
#[verifier::allow_in_spec]
pub fn roll_score(roll_radians: Option<Double>) -> Single
    returns
        (match roll_radians {
            Some(roll) => (Double::integer(1) - roll.to_degrees().abs() / Double::integer(
                35,
            )).clamp(Double::integer(0), Double::integer(1)).to_single(),
            None => Single::ratio(75, 100),
        }),
{
    match roll_radians {
        Some(roll) => (Double::integer(1) - roll.to_degrees().abs() / Double::integer(35)).clamp(
            Double::integer(0),
            Double::integer(1),
        ).to_single(),
        None => Single::ratio(75, 100),
    }
}

pub fn capture_quality(face: &FaceGeometry) -> (r: Single)
    ensures
        r == spec_capture_quality(face@),
{
    (face.confidence * Single::ratio(4, 10) + face.landmark_confidence * Single::ratio(3, 10)
        + size_score(face.bounding_box.width, face.bounding_box.height) * Single::ratio(2, 10)
        + roll_score(face.roll_radians) * Single::ratio(1, 10)).clamp(
        Single::integer(0),
        Single::integer(1),
    )
}

/// Where the nose stands between the mouth, at zero, and the eyes, at one: nothing where a
/// landmark is missing or the mouth is level with the eyes.
pub open spec fn spec_vertical_pose_proxy(face: FaceView) -> Option<Double> {
    match (
        model::spec_region_center(face.landmarks, LandmarkKind::LeftEye),
        model::spec_region_center(face.landmarks, LandmarkKind::RightEye),
        model::spec_nose(face.landmarks),
        model::spec_region_center(face.landmarks, LandmarkKind::OuterLips),
    ) {
        (Some(left), Some(right), Some(nose), Some(mouth)) => nose_height(
            (left.y + right.y) / Double::integer(2),
            nose.y,
            mouth.y,
        ),
        _ => None,
    }
}

/// Where a height stands between two others, counted from the lower one.
#[verifier::allow_in_spec]
pub fn nose_height(eyes: Double, nose: Double, mouth: Double) -> Option<Double>
    returns
        (if (eyes - mouth).abs().at_most(epsilon()) {
            None
        } else {
            Some((nose - mouth) / (eyes - mouth))
        }),
{
    if (eyes - mouth).abs().at_most(epsilon()) {
        None
    } else {
        Some((nose - mouth) / (eyes - mouth))
    }
}

pub fn vertical_pose_proxy(face: &FaceGeometry) -> (r: Option<Double>)
    ensures
        r == spec_vertical_pose_proxy(face@),
{
    match (
        region_center(&face.landmarks, LandmarkKind::LeftEye),
        region_center(&face.landmarks, LandmarkKind::RightEye),
        model::nose(&face.landmarks),
        region_center(&face.landmarks, LandmarkKind::OuterLips),
    ) {
        (Some(left), Some(right), Some(nose), Some(mouth)) => nose_height(
            (left.y + right.y) / Double::integer(2),
            nose.y,
            mouth.y,
        ),
        _ => None,
    }
}

/// The pitch that the nose's place says, where the middle is level.
#[verifier::allow_in_spec]
pub fn proxy_degrees(proxy: Double) -> Double
    returns
        ((proxy - Double::ratio(1, 2)) * Double::integer(200)).clamp(
            Double::integer(45).negated(),
            Double::integer(45),
        ),
{
    ((proxy - Double::ratio(1, 2)) * Double::integer(200)).clamp(
        Double::integer(45).negated(),
        Double::integer(45),
    )
}

/// Approximate pitch from landmarks.
pub open spec fn spec_landmark_pitch_degrees(face: FaceView) -> Option<Double> {
    match spec_vertical_pose_proxy(face) {
        Some(proxy) => Some(proxy_degrees(proxy)),
        None => None,
    }
}

/// Approximate pitch for diagnostics when Vision does not expose native pitch.
/// A tilde should be shown alongside this value because neutral facial proportions vary.
pub fn landmark_pitch_degrees(face: &FaceGeometry) -> (r: Option<Double>)
    ensures
        r == spec_landmark_pitch_degrees(face@),
{
    match vertical_pose_proxy(face) {
        Some(proxy) => Some(proxy_degrees(proxy)),
        None => None,
    }
}

/// Whether a value is between two integers, or is one of them.
#[verifier::allow_in_spec]
pub fn within(value: Double, low: u64, high: u64) -> bool
    returns
        Double::integer(low).at_most(value) && value.at_most(Double::integer(high)),
{
    Double::integer(low).at_most(value) && value.at_most(Double::integer(high))
}

/// Whether a head pose is the one asked for. The first sample to a side decides which sign that
/// side has; the opposite side then has the other one.
#[verifier::allow_in_spec]
pub fn pose_matches(
    pose: CapturePose,
    yaw: Double,
    pitch: Double,
    horizontal_sign: Option<Double>,
    vertical_sign: Option<Double>,
) -> bool
    returns
        (match pose {
            CapturePose::Center => yaw.abs().at_most(Double::integer(10)) && pitch.abs().at_most(
                Double::integer(10),
            ),
            CapturePose::Left => within(yaw.abs(), 12, 50) && match horizontal_sign {
                Some(sign) => yaw.signum().equals(sign),
                None => true,
            },
            CapturePose::Right => within(yaw.abs(), 12, 50) && match horizontal_sign {
                Some(sign) => yaw.signum().equals(sign.negated()),
                None => false,
            },
            CapturePose::Up => yaw.abs().at_most(Double::integer(14)) && within(
                pitch.abs(),
                12,
                30,
            ) && match vertical_sign {
                Some(sign) => pitch.signum().equals(sign),
                None => true,
            },
            CapturePose::Down => yaw.abs().at_most(Double::integer(14)) && within(
                pitch.abs(),
                12,
                30,
            ) && match vertical_sign {
                Some(sign) => pitch.signum().equals(sign.negated()),
                None => false,
            },
        }),
{
    match pose {
        CapturePose::Center => yaw.abs().at_most(Double::integer(10)) && pitch.abs().at_most(
            Double::integer(10),
        ),
        CapturePose::Left => within(yaw.abs(), 12, 50) && match horizontal_sign {
            Some(sign) => yaw.signum().equals(sign),
            None => true,
        },
        CapturePose::Right => within(yaw.abs(), 12, 50) && match horizontal_sign {
            Some(sign) => yaw.signum().equals(sign.negated()),
            None => false,
        },
        CapturePose::Up => yaw.abs().at_most(Double::integer(14)) && within(pitch.abs(), 12, 30)
            && match vertical_sign {
            Some(sign) => pitch.signum().equals(sign),
            None => true,
        },
        CapturePose::Down => yaw.abs().at_most(Double::integer(14)) && within(pitch.abs(), 12, 30)
            && match vertical_sign {
            Some(sign) => pitch.signum().equals(sign.negated()),
            None => false,
        },
    }
}

/// Whether a sign is known and a value has another one.
#[verifier::allow_in_spec]
pub fn is_opposed(value: Double, sign: Option<Double>, mirrored: bool) -> bool
    returns
        (match sign {
            Some(sign) => !value.signum().equals(
                if mirrored {
                    sign.negated()
                } else {
                    sign
                },
            ),
            None => false,
        }),
{
    match sign {
        Some(sign) => !value.signum().equals(
            if mirrored {
                sign.negated()
            } else {
                sign
            },
        ),
        None => false,
    }
}

/// What to do to get into a pose.
#[verifier::allow_in_spec]
pub fn pose_guidance(
    pose: CapturePose,
    yaw: Double,
    pitch: Double,
    horizontal_sign: Option<Double>,
    vertical_sign: Option<Double>,
) -> &'static str
    returns
        (match pose {
            CapturePose::Center => if Double::integer(10).less(yaw.abs()) {
                "rotate your face back to center"
            } else {
                "level your chin toward center"
            },
            CapturePose::Left | CapturePose::Right => if yaw.abs().less(Double::integer(12)) {
                "turn farther toward the prompt"
            } else if Double::integer(50).less(yaw.abs()) {
                "turn slightly back toward the camera"
            } else if !is_opposed(yaw, horizontal_sign, pose == CapturePose::Right) {
                "adjust your head toward the prompt"
            } else if pose == CapturePose::Left {
                "turn toward the other side"
            } else {
                "turn toward the opposite side from LEFT"
            },
            CapturePose::Up | CapturePose::Down => if pitch.abs().less(Double::integer(12)) {
                "tilt farther toward the prompt"
            } else if Double::integer(30).less(pitch.abs()) {
                "tilt slightly back toward center"
            } else if !is_opposed(pitch, vertical_sign, pose == CapturePose::Down) {
                "adjust your head toward the prompt"
            } else if pose == CapturePose::Up {
                "tilt toward the other vertical direction"
            } else {
                "tilt opposite from UP"
            },
        }),
{
    match pose {
        CapturePose::Center => {
            if Double::integer(10).less(yaw.abs()) {
                "rotate your face back to center"
            } else {
                "level your chin toward center"
            }
        },
        CapturePose::Left | CapturePose::Right => {
            if yaw.abs().less(Double::integer(12)) {
                "turn farther toward the prompt"
            } else if Double::integer(50).less(yaw.abs()) {
                "turn slightly back toward the camera"
            } else if !is_opposed(yaw, horizontal_sign, pose == CapturePose::Right) {
                "adjust your head toward the prompt"
            } else if pose == CapturePose::Left {
                "turn toward the other side"
            } else {
                "turn toward the opposite side from LEFT"
            }
        },
        CapturePose::Up | CapturePose::Down => {
            if pitch.abs().less(Double::integer(12)) {
                "tilt farther toward the prompt"
            } else if Double::integer(30).less(pitch.abs()) {
                "tilt slightly back toward center"
            } else if !is_opposed(pitch, vertical_sign, pose == CapturePose::Down) {
                "adjust your head toward the prompt"
            } else if pose == CapturePose::Up {
                "tilt toward the other vertical direction"
            } else {
                "tilt opposite from UP"
            }
        },
    }
}

impl CaptureView {
    /// How many samples have been accepted.
    pub open spec fn progress(self) -> int {
        CAPTURE_SAMPLES_PER_POSE * self.pose_index + self.samples
    }

    /// A sample is asked for only of a pose that has been held, without a warning, for the whole
    /// hold duration; and no other one until it has come back.
    pub proof fn law_one_steady_sample(self, face: FaceView, now: u64)
        ensures
            self.request(face, now) is Some ==> {
                &&& self.stable_since is Some
                &&& now - self.stable_since->0 >= CAPTURE_HOLD_DURATION
                &&& self.seen(face).objection() is None
                &&& self.observed(face, now).pending
            },
            forall|other: FaceView, later: u64|
                self.observed(face, now).pending ==> #[trigger] self.observed(face, now).request(
                    other,
                    later,
                ) is None,
            self.request(face, now) is None ==> self.observed(face, now).pending == self.pending,
    {
    }

    /// Looking does not count: only accepted samples do.
    pub proof fn law_looking_keeps_progress(self, face: FaceView, now: u64)
        ensures
            self.observed(face, now).progress() == self.progress(),
            self.observed(face, now).completed == self.completed,
    {
    }

    /// Poses are captured in order, three samples each: what is asked for next depends on how many
    /// samples there are.
    pub proof fn law_poses_in_order(self, face: FaceView, now: u64)
        requires
            self.samples < CAPTURE_SAMPLES_PER_POSE,
            self.pose_index < usize::MAX,
        ensures
            self.request(face, now) matches Some(request) ==> {
                &&& request.pose == CapturePose::spec_at(
                    self.progress() / CAPTURE_SAMPLES_PER_POSE as int,
                )
                &&& self.progress() < CAPTURE_SAMPLES_PER_POSE * POSE_COUNT
                &&& self.observed(face, now).accepted(request).progress() == self.progress() + 1
                &&& self.observed(face, now).accepted(request).samples < CAPTURE_SAMPLES_PER_POSE
            },
    {
    }

    /// The capture is over, and asks for nothing more, when fifteen samples have been accepted.
    pub proof fn law_fifteen_samples(self, face: FaceView, now: u64)
        requires
            self.samples < CAPTURE_SAMPLES_PER_POSE,
        ensures
            self.pose_index >= POSE_COUNT <==> self.progress() >= CAPTURE_SAMPLES_PER_POSE
                * POSE_COUNT,
            self.pose_index >= POSE_COUNT ==> self.request(face, now) is None,
    {
    }

    /// Zero or several faces, and lost samples, warn and start the hold anew; what was captured
    /// before is kept.
    pub proof fn law_trouble_blocks_sampling(self, message: Seq<char>, face: FaceView, now: u64)
        requires
            !self.completed,
        ensures
            self.troubled(message).alert,
            self.troubled(message).progress() == self.progress(),
            self.troubled(message).request(face, now) is None,
            self.released(message).alert,
            self.released(message).progress() == self.progress(),
            self.released(message).request(face, now) is None,
    {
    }

    /// A face that is no sample is answered with a warning.
    pub proof fn law_objection_warns(self, face: FaceView, now: u64)
        requires
            !self.is_waiting(),
            self.seen(face).objection() is Some,
        ensures
            self.observed(face, now).alert,
            self.observed(face, now).message == self.seen(face).objection()->0,
            self.request(face, now) is None,
    {
    }
}

/// No head pose is both of two opposite ones, once the first side has been sampled.
pub proof fn law_sides_exclude_each_other(
    yaw: Double,
    pitch: Double,
    horizontal: Double,
    vertical: Double,
)
    ensures
        !(pose_matches(CapturePose::Left, yaw, pitch, Some(horizontal), Some(vertical))
            && pose_matches(CapturePose::Right, yaw, pitch, Some(horizontal), Some(vertical))),
        !(pose_matches(CapturePose::Up, yaw, pitch, Some(horizontal), Some(vertical))
            && pose_matches(CapturePose::Down, yaw, pitch, Some(horizontal), Some(vertical))),
{
    lemma_sides(yaw, horizontal);
    lemma_sides(pitch, vertical);
}

proof fn lemma_sides(value: Double, sign: Double)
    ensures
        !(value.signum().equals(sign) && value.signum().equals(sign.negated())),
{
    let one = value.signum();
    reveal(Double::magnitude);
    rounding::lemma_mag_nonnegative(one.pattern() as int, 52);
    rounding::lemma_mag_nonnegative(sign.pattern() as int, 52);
    assert(sign.negated().pattern() == sign.pattern());
}

/// The quality of a face lies between zero and one, where it is a number.
pub proof fn law_quality_in_range(face: FaceView)
    requires
        !spec_capture_quality(face).nan(),
    ensures
        Single::integer(0).at_most(spec_capture_quality(face)),
        spec_capture_quality(face).at_most(Single::integer(1)),
{
    Single::law_ratios_are_ordered(0, 1, 1, 1);
}

} // verus!
