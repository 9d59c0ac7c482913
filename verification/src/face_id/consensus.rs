//! Multi-frame consensus: several embeddings of one track, of which three that agree are averaged.

use vstd::prelude::*;
use crate::double::Double;
use crate::face_id::capture;
use crate::face_id::capture::{capture_quality, degrees, landmark_pitch_degrees};
use crate::face_id::embedding;
use crate::face_id::embedding::{copy_embedding, cosine_similarity, mean_embedding};
use crate::face_id::gallery::{PoseGroup, SFACE_COSINE_THRESHOLD};
use crate::model::{BoundingBox, FaceGeometry, FaceView};
use crate::single::Single;
use crate::text;

verus! {

/// How many embeddings a consensus needs.
pub const CONSENSUS_SIZE: usize = 3;

/// How many embeddings are tried at most.
pub const MAX_OBSERVATIONS: usize = 5;

/// The time between two samples of a track, in nanoseconds.
pub const SAMPLE_INTERVAL: u64 = 90_000_000;

/// One embedding of a track.
#[derive(Debug)]
pub struct Observation {
    pub embedding: Vec<Single>,
    pub quality: Single,
    pub group: PoseGroup,
}

/// The content of an observation.
#[verifier::ext_equal]
pub struct ObservationView {
    pub embedding: Seq<Single>,
    pub quality: Single,
    pub group: PoseGroup,
}

impl View for Observation {
    type V = ObservationView;

    open spec fn view(&self) -> ObservationView {
        ObservationView {
            embedding: self.embedding@,
            quality: self.quality,
            group: self.group,
        }
    }
}

/// The content of an observation that may be missing.
pub open spec fn optional_view(observation: Option<Observation>) -> Option<ObservationView> {
    match observation {
        Some(observation) => Some(observation@),
        None => None,
    }
}

/// The contents of observations.
pub open spec fn observation_views(observations: Seq<Observation>) -> Seq<ObservationView> {
    observations.map_values(|observation: Observation| observation@)
}

/// How similar two observations are.
pub open spec fn agreement(observations: Seq<ObservationView>, i: int, j: int) -> Single {
    embedding::spec_cosine_similarity(observations[i].embedding, observations[j].embedding)
}

/// The mean of the similarities of three pairs.
#[verifier::allow_in_spec]
pub fn mean_of_three(a: Single, b: Single, c: Single) -> Single
    returns
        (a + b + c) / Single::integer(3),
{
    (a + b + c) / Single::integer(3)
}

/// Three different observations, in their order.
pub open spec fn is_triple(observations: Seq<ObservationView>, t: (int, int, int)) -> bool {
    0 <= t.0 < t.1 < t.2 < observations.len()
}

/// How consistent three observations are: the mean similarity of their pairs.
pub open spec fn consistency(observations: Seq<ObservationView>, t: (int, int, int)) -> Single {
    mean_of_three(
        agreement(observations, t.0, t.1),
        agreement(observations, t.0, t.2),
        agreement(observations, t.1, t.2),
    )
}

/// One triple comes before another.
pub open spec fn comes_before(t: (int, int, int), u: (int, int, int)) -> bool {
    t.0 < u.0 || (t.0 == u.0 && (t.1 < u.1 || (t.1 == u.1 && t.2 < u.2)))
}

/// No three observations are more consistent, and the earlier ones are less so.
pub open spec fn is_most_consistent(
    observations: Seq<ObservationView>,
    t: (int, int, int),
) -> bool {
    &&& is_triple(observations, t)
    &&& forall|u: (int, int, int)| #[trigger]
        is_triple(observations, u) ==> if comes_before(u, t) {
            consistency(observations, u).rank() < consistency(observations, t).rank()
        } else {
            consistency(observations, u).rank() <= consistency(observations, t).rank()
        }
}

/// The most consistent three observations.
pub open spec fn most_consistent(observations: Seq<ObservationView>) -> (int, int, int) {
    choose|t: (int, int, int)| is_most_consistent(observations, t)
}

/// There is one most consistent triple.
proof fn lemma_most_consistent(observations: Seq<ObservationView>, t: (int, int, int))
    requires
        is_most_consistent(observations, t),
    ensures
        most_consistent(observations) == t,
{
    let u = most_consistent(observations);
    assert(is_most_consistent(observations, u));
    if comes_before(u, t) {
        assert(is_triple(observations, u));
    } else if comes_before(t, u) {
        assert(is_triple(observations, t));
    }
}

/// Every pair of three observations is similar enough to be of one person.
pub open spec fn agrees(observations: Seq<ObservationView>, t: (int, int, int)) -> bool {
    let threshold = Single::from_bits(SFACE_COSINE_THRESHOLD);
    &&& threshold.at_most(agreement(observations, t.0, t.1))
    &&& threshold.at_most(agreement(observations, t.0, t.2))
    &&& threshold.at_most(agreement(observations, t.1, t.2))
}

fn pair_similarity(observations: &Vec<Observation>, i: usize, j: usize) -> (r: Single)
    requires
        i < observations.len(),
        j < observations.len(),
    ensures
        r == agreement(observation_views(observations@), i as int, j as int),
{
    assert(observation_views(observations@)[i as int] == observations[i as int]@);
    assert(observation_views(observations@)[j as int] == observations[j as int]@);
    cosine_similarity(&observations[i].embedding, &observations[j].embedding)
}

fn triple_consistency(observations: &Vec<Observation>, i: usize, j: usize, k: usize) -> (r: Single)
    requires
        i < j < k < observations.len(),
    ensures
        r == consistency(observation_views(observations@), (i as int, j as int, k as int)),
{
    mean_of_three(
        pair_similarity(observations, i, j),
        pair_similarity(observations, i, k),
        pair_similarity(observations, j, k),
    )
}

/// The triples that have been looked at when `(i, j, k)` is next.
spec fn is_seen(t: (int, int, int), i: int, j: int, k: int) -> bool {
    comes_before(t, (i, j, k))
}

/// Of the triples that have been looked at, `t` is the most consistent one.
spec fn is_leading(
    observations: Seq<ObservationView>,
    t: (int, int, int),
    i: int,
    j: int,
    k: int,
) -> bool {
    &&& is_triple(observations, t)
    &&& is_seen(t, i, j, k)
    &&& forall|u: (int, int, int)| #[trigger]
        is_triple(observations, u) && is_seen(u, i, j, k) ==> if comes_before(u, t) {
            consistency(observations, u).rank() < consistency(observations, t).rank()
        } else {
            consistency(observations, u).rank() <= consistency(observations, t).rank()
        }
}

/// Finds the most consistent three observations.
pub fn select_consistent(observations: &Vec<Observation>) -> (r: (usize, usize, usize))
    requires
        CONSENSUS_SIZE <= observations.len() <= MAX_OBSERVATIONS,
    ensures
        r.0 < r.1 < r.2 < observations.len(),
        (r.0 as int, r.1 as int, r.2 as int) == most_consistent(observation_views(observations@)),
        is_most_consistent(
            observation_views(observations@),
            most_consistent(observation_views(observations@)),
        ),
{
    let n: usize = observations.len();
    let ghost views = observation_views(observations@);
    let mut best: (usize, usize, usize) = (0, 1, 2);
    let mut score = triple_consistency(observations, 0, 1, 2);
    let mut i: usize = 0;
    while i < n
        invariant
            n == observations.len(),
            CONSENSUS_SIZE <= n <= MAX_OBSERVATIONS,
            views == observation_views(observations@),
            i <= n,
            best.0 < best.1 < best.2 < n,
            score == consistency(views, (best.0 as int, best.1 as int, best.2 as int)),
            i == 0 ==> best == (0usize, 1usize, 2usize),
            i > 0 ==> is_leading(
                views,
                (best.0 as int, best.1 as int, best.2 as int),
                i as int,
                0,
                0,
            ),
        decreases n - i,
    {
        let mut j: usize = i + 1;
        while j < n
            invariant
                n == observations.len(),
                CONSENSUS_SIZE <= n <= MAX_OBSERVATIONS,
                views == observation_views(observations@),
                i < j <= n,
                best.0 < best.1 < best.2 < n,
                score == consistency(views, (best.0 as int, best.1 as int, best.2 as int)),
                i == 0 && j == 1 ==> best == (0usize, 1usize, 2usize),
                i > 0 || j > 1 ==> is_leading(
                    views,
                    (best.0 as int, best.1 as int, best.2 as int),
                    i as int,
                    j as int,
                    0,
                ),
            decreases n - j,
        {
            let mut k: usize = j + 1;
            while k < n
                invariant
                    n == observations.len(),
                    CONSENSUS_SIZE <= n <= MAX_OBSERVATIONS,
                    views == observation_views(observations@),
                    i < j < k <= n,
                    best.0 < best.1 < best.2 < n,
                    score == consistency(views, (best.0 as int, best.1 as int, best.2 as int)),
                    i == 0 && j == 1 && k == 2 ==> best == (0usize, 1usize, 2usize),
                    i > 0 || j > 1 || k > 2 ==> is_leading(
                        views,
                        (best.0 as int, best.1 as int, best.2 as int),
                        i as int,
                        j as int,
                        k as int,
                    ),
                decreases n - k,
            {
                let candidate = triple_consistency(observations, i, j, k);
                if score.precedes(candidate) {
                    best = (i, j, k);
                    score = candidate;
                }
                k += 1;
            }
            j += 1;
        }
        i += 1;
    }
    proof {
        let t = (best.0 as int, best.1 as int, best.2 as int);
        assert forall|u: (int, int, int)| #[trigger] is_triple(views, u) implies is_seen(
            u,
            n as int,
            0,
            0,
        ) by {}
        assert(is_most_consistent(views, t));
        lemma_most_consistent(views, t);
    }
    best
}

/// Three embeddings that were averaged.
#[derive(Debug)]
pub struct Consensus {
    pub embedding: Vec<Single>,
    /// How many embeddings there were to choose from.
    pub frames: usize,
    pub consistency: Single,
    pub quality: Single,
    pub group: PoseGroup,
}

/// The content of a consensus.
#[verifier::ext_equal]
pub struct ConsensusView {
    pub embedding: Seq<Single>,
    pub frames: nat,
    pub consistency: Single,
    pub quality: Single,
    pub group: PoseGroup,
}

impl View for Consensus {
    type V = ConsensusView;

    open spec fn view(&self) -> ConsensusView {
        ConsensusView {
            embedding: self.embedding@,
            frames: self.frames as nat,
            consistency: self.consistency,
            quality: self.quality,
            group: self.group,
        }
    }
}

/// The average of the most consistent three observations, with the head pose of the latest one.
pub open spec fn spec_consensus(observations: Seq<ObservationView>) -> Result<
    ConsensusView,
    Seq<char>,
> {
    let t = most_consistent(observations);
    let chosen = seq![
        observations[t.0].embedding,
        observations[t.1].embedding,
        observations[t.2].embedding,
    ];
    match embedding::spec_mean_embedding(chosen) {
        Ok(embedding) => Ok(
            ConsensusView {
                embedding,
                frames: observations.len(),
                consistency: consistency(observations, t),
                quality: mean_of_three(
                    observations[t.0].quality,
                    observations[t.1].quality,
                    observations[t.2].quality,
                ),
                group: observations[t.2].group,
            },
        ),
        Err(message) => Err(message),
    }
}

fn consensus(observations: &Vec<Observation>, chosen: (usize, usize, usize)) -> (r: Result<
    Consensus,
    String,
>)
    requires
        chosen.0 < chosen.1 < chosen.2 < observations.len(),
        (chosen.0 as int, chosen.1 as int, chosen.2 as int) == most_consistent(
            observation_views(observations@),
        ),
    ensures
        text::outcome(r) == spec_consensus(observation_views(observations@)),
{
    let ghost views = observation_views(observations@);
    let first = &observations[chosen.0];
    let second = &observations[chosen.1];
    let third = &observations[chosen.2];
    assert(views[chosen.0 as int] == first@);
    assert(views[chosen.1 as int] == second@);
    assert(views[chosen.2 as int] == third@);
    let mut embeddings: Vec<Vec<Single>> = Vec::new();
    embeddings.push(copy_embedding(&first.embedding));
    embeddings.push(copy_embedding(&second.embedding));
    embeddings.push(copy_embedding(&third.embedding));
    assert(embedding::vectors(embeddings@) =~= seq![
        views[chosen.0 as int].embedding,
        views[chosen.1 as int].embedding,
        views[chosen.2 as int].embedding,
    ]);
    match mean_embedding(&embeddings) {
        Ok(embedding) => Ok(
            Consensus {
                embedding,
                frames: observations.len(),
                consistency: triple_consistency(observations, chosen.0, chosen.1, chosen.2),
                quality: mean_of_three(first.quality, second.quality, third.quality),
                group: third.group,
            },
        ),
        Err(message) => Err(message),
    }
}

/// What is known of a track that is to be recognized.
#[derive(Debug)]
pub struct TrackSamples {
    /// How many samples may be submitted so far.
    wanted: usize,
    /// How many samples have been submitted.
    submitted: usize,
    /// How many of them have been answered.
    answered: usize,
    /// When the last one was submitted.
    last_submitted: u64,
    observations: Vec<Observation>,
    /// Whether no further sample is needed.
    finished: bool,
}

/// The content of a track's samples.
#[verifier::ext_equal]
pub struct SamplesView {
    pub wanted: nat,
    pub submitted: nat,
    pub answered: nat,
    pub last_submitted: u64,
    pub observations: Seq<ObservationView>,
    pub finished: bool,
}

impl View for TrackSamples {
    type V = SamplesView;

    closed spec fn view(&self) -> SamplesView {
        SamplesView {
            wanted: self.wanted as nat,
            submitted: self.submitted as nat,
            answered: self.answered as nat,
            last_submitted: self.last_submitted,
            observations: observation_views(self.observations@),
            finished: self.finished,
        }
    }
}

impl SamplesView {
    /// A track with one sample on its way.
    pub open spec fn begun(now: u64) -> SamplesView {
        SamplesView {
            wanted: CONSENSUS_SIZE as nat,
            submitted: 1,
            answered: 0,
            last_submitted: now,
            observations: Seq::empty(),
            finished: false,
        }
    }

    /// A track that no sample can be submitted of.
    pub open spec fn abandoned(now: u64) -> SamplesView {
        SamplesView { finished: true, ..Self::begun(now) }
    }

    /// The counts are in order: five samples at most.
    pub open spec fn is_ordered(self) -> bool {
        self.observations.len() <= self.answered <= self.submitted <= self.wanted
            <= MAX_OBSERVATIONS
    }

    /// Whether another sample is due.
    pub open spec fn is_due(self, now: u64) -> bool {
        !self.finished && self.submitted < self.wanted && now - self.last_submitted
            >= SAMPLE_INTERVAL
    }

    /// With one sample more on its way.
    pub open spec fn sent(self, now: u64) -> SamplesView {
        SamplesView { submitted: self.submitted + 1, last_submitted: now, ..self }
    }

    /// With an answer: an embedding, or nothing where it failed.
    pub open spec fn heard(self, observation: Option<ObservationView>) -> SamplesView {
        SamplesView {
            answered: self.answered + 1,
            observations: match observation {
                Some(observation) => self.observations.push(observation),
                None => self.observations,
            },
            ..self
        }
    }

    /// Whether the observations are enough: three agree, or there will be no more than there are.
    pub open spec fn is_enough(self) -> bool {
        self.observations.len() >= CONSENSUS_SIZE && (agrees(
            self.observations,
            most_consistent(self.observations),
        ) || self.answered >= MAX_OBSERVATIONS)
    }

    /// The track once an answer has been weighed: finished where the observations are enough or no
    /// further one may be tried, and with one more wanted where all have been answered.
    pub open spec fn weighed(self) -> SamplesView {
        if self.is_enough() {
            SamplesView { finished: true, ..self }
        } else if self.answered < self.wanted {
            self
        } else if self.wanted < MAX_OBSERVATIONS {
            SamplesView { wanted: self.wanted + 1, ..self }
        } else {
            SamplesView { finished: true, ..self }
        }
    }
}

/// What an answer comes to.
#[derive(Debug)]
pub enum ConsensusStep {
    /// More samples are needed, or none can help.
    Wait,
    /// The track is to be recognized by this.
    Ready { consensus: Consensus },
    /// Three embeddings were chosen that have no average.
    Failed { message: String },
}

impl TrackSamples {
    pub fn begin(now: u64) -> (r: Self)
        ensures
            r@ == SamplesView::begun(now),
            r@.is_ordered(),
    {
        let r = TrackSamples {
            wanted: CONSENSUS_SIZE,
            submitted: 1,
            answered: 0,
            last_submitted: now,
            observations: Vec::new(),
            finished: false,
        };
        assert(r@.observations =~= Seq::empty());
        r
    }

    pub fn abandon(now: u64) -> (r: Self)
        ensures
            r@ == SamplesView::abandoned(now),
            r@.is_ordered(),
    {
        let mut r = TrackSamples::begin(now);
        r.finished = true;
        r
    }

    /// Takes the news that no further sample can be submitted.
    pub fn finish(&mut self)
        ensures
            final(self)@ == (SamplesView { finished: true, ..old(self)@ }),
    {
        self.finished = true;
    }

    pub fn is_due(&self, now: u64) -> (r: bool)
        ensures
            r == self@.is_due(now),
    {
        !self.finished && self.submitted < self.wanted && now >= self.last_submitted && now
            - self.last_submitted >= SAMPLE_INTERVAL
    }

    /// Whether another sample may be submitted.
    pub fn has_room(&self) -> (r: bool)
        ensures
            r == (self@.submitted < self@.wanted),
    {
        self.submitted < self.wanted
    }

    /// Whether an answer still counts.
    pub fn awaits_answer(&self) -> (r: bool)
        ensures
            r == (self@.answered < self@.submitted && !self@.finished),
    {
        self.answered < self.submitted && !self.finished
    }

    /// Takes the news that one more sample was submitted.
    pub fn sent(&mut self, now: u64)
        requires
            old(self)@.is_ordered(),
            old(self)@.submitted < old(self)@.wanted,
        ensures
            final(self)@ == old(self)@.sent(now),
            final(self)@.is_ordered(),
    {
        self.submitted += 1;
        self.last_submitted = now;
    }

    /// Takes the answer to a sample.
    pub fn answer(&mut self, observation: Option<Observation>) -> (r: ConsensusStep)
        requires
            old(self)@.is_ordered(),
            old(self)@.answered < old(self)@.submitted,
            !old(self)@.finished,
        ensures
            ({
                let heard = old(self)@.heard(optional_view(observation));
                &&& final(self)@ == heard.weighed()
                &&& final(self)@.is_ordered()
                &&& match r {
                    ConsensusStep::Wait => !heard.is_enough(),
                    ConsensusStep::Ready { consensus } => heard.is_enough() && spec_consensus(
                        heard.observations,
                    ) == Ok::<ConsensusView, Seq<char>>(consensus@),
                    ConsensusStep::Failed { message } => heard.is_enough() && spec_consensus(
                        heard.observations,
                    ) == Err::<ConsensusView, Seq<char>>(message@),
                }
            }),
    {
        let ghost before = self@;
        let ghost heard = before.heard(optional_view(observation));
        self.answered += 1;
        if let Some(observation) = observation {
            self.observations.push(observation);
        }
        assert(self@.observations =~= heard.observations);
        assert(self@ == heard);
        if self.observations.len() >= CONSENSUS_SIZE {
            let chosen = select_consistent(&self.observations);
            let threshold = Single::from_bits(SFACE_COSINE_THRESHOLD);
            let agreed = threshold.at_most(pair_similarity(&self.observations, chosen.0, chosen.1))
                && threshold.at_most(pair_similarity(&self.observations, chosen.0, chosen.2))
                && threshold.at_most(pair_similarity(&self.observations, chosen.1, chosen.2));
            if agreed || self.answered >= MAX_OBSERVATIONS {
                self.finished = true;
                return match consensus(&self.observations, chosen) {
                    Ok(consensus) => ConsensusStep::Ready { consensus },
                    Err(message) => ConsensusStep::Failed { message },
                };
            }
        }
        if self.answered >= self.wanted {
            if self.wanted < MAX_OBSERVATIONS {
                self.wanted += 1;
            } else {
                self.finished = true;
            }
        }
        ConsensusStep::Wait
    }
}

/// Whether an angle is known and greater than a limit, whichever way it is turned.
#[verifier::allow_in_spec]
pub fn is_extreme(radians: Option<Double>, limit_degrees: u64) -> bool
    returns
        (match degrees(radians) {
            Some(angle) => Double::integer(limit_degrees).less(angle.abs()),
            None => false,
        }),
{
    match degrees(radians) {
        Some(angle) => Double::integer(limit_degrees).less(angle.abs()),
        None => false,
    }
}

/// Whether a box covers less of a picture of 1280 by 720 pixels than an aligned crop does.
#[verifier::allow_in_spec]
pub fn is_undersized(bounds: BoundingBox) -> bool
    returns
        (bounds.width * bounds.height).less(Double::ratio(12_544, 921_600)),
{
    (bounds.width * bounds.height).less(Double::ratio(12_544, 921_600))
}

/// Whether a face is good enough to be recognized by: detected with confidence, large enough, of
/// sufficient quality, rolled by thirty-five degrees at most and turned by fifty degrees at most.
pub open spec fn spec_is_usable(face: FaceView) -> bool {
    let least = Single::ratio(65, 100);
    &&& !face.confidence.less(least)
    &&& !face.landmark_confidence.less(least)
    &&& !capture::spec_capture_quality(face).less(least)
    &&& !is_undersized(face.bounding_box)
    &&& !is_extreme(face.roll_radians, 35)
    &&& !is_extreme(face.yaw_radians, 50)
}

pub fn is_usable(face: &FaceGeometry) -> (r: bool)
    ensures
        r == spec_is_usable(face@),
{
    let least = Single::ratio(65, 100);
    !face.confidence.less(least) && !face.landmark_confidence.less(least) && !capture_quality(
        face,
    ).less(least) && !is_undersized(face.bounding_box) && !is_extreme(face.roll_radians, 35)
        && !is_extreme(face.yaw_radians, 50)
}

/// The least of the first `k` values, and of infinity.
pub open spec fn darkest(tensor: Seq<Single>, k: int) -> Single
    decreases k,
{
    if k <= 0 {
        Single::from_bits(0x7F80_0000)
    } else {
        darkest(tensor, k - 1).min(tensor[k - 1])
    }
}

/// The greatest of the first `k` values, and of zero.
pub open spec fn brightest(tensor: Seq<Single>, k: int) -> Single
    decreases k,
{
    if k <= 0 {
        Single::integer(0)
    } else {
        brightest(tensor, k - 1).max(tensor[k - 1])
    }
}

/// The sum of the first `k` values.
pub open spec fn light(tensor: Seq<Single>, k: int) -> Single
    decreases k,
{
    if k <= 0 {
        Single::integer(0)
    } else {
        light(tensor, k - 1) + tensor[k - 1]
    }
}

/// Whether a crop is neither flat nor badly exposed: its values, of 255, differ by sixteen at
/// least, and their mean is neither below twenty nor above 235.
pub open spec fn spec_is_clear(tensor: Seq<Single>) -> bool {
    let n = tensor.len() as int;
    let mean = light(tensor, n) / Single::integer(n as u64);
    &&& Single::integer(16).at_most(brightest(tensor, n) - darkest(tensor, n))
    &&& Single::integer(20).at_most(mean)
    &&& mean.at_most(Single::integer(235))
}

pub fn is_clear(tensor: &Vec<Single>) -> (r: bool)
    ensures
        r == spec_is_clear(tensor@),
{
    let mut least = Single::from_bits(0x7F80_0000);
    let mut greatest = Single::integer(0);
    let mut sum = Single::integer(0);
    let mut i: usize = 0;
    while i < tensor.len()
        invariant
            i <= tensor.len(),
            least == darkest(tensor@, i as int),
            greatest == brightest(tensor@, i as int),
            sum == light(tensor@, i as int),
        decreases tensor.len() - i,
    {
        least = least.min(tensor[i]);
        greatest = greatest.max(tensor[i]);
        sum = sum + tensor[i];
        i += 1;
    }
    let mean = sum / Single::integer(tensor.len() as u64);
    Single::integer(16).at_most(greatest - least) && Single::integer(20).at_most(mean)
        && mean.at_most(Single::integer(235))
}

/// The pose group of a face, its pitch taken from landmarks where it is not known.
pub open spec fn spec_pose_group(face: FaceView) -> PoseGroup {
    let pitch = if face.pitch_radians is Some {
        degrees(face.pitch_radians)
    } else {
        capture::spec_landmark_pitch_degrees(face)
    };
    PoseGroup::of(degrees(face.yaw_radians), pitch)
}

pub fn pose_group(face: &FaceGeometry) -> (r: PoseGroup)
    ensures
        r == spec_pose_group(face@),
{
    let pitch = if face.pitch_radians.is_some() {
        degrees(face.pitch_radians)
    } else {
        landmark_pitch_degrees(face)
    };
    PoseGroup::of(degrees(face.yaw_radians), pitch)
}

impl SamplesView {
    /// A track is finished after five answers at the latest, and from three on as soon as three of
    /// them agree.
    pub proof fn law_three_to_five_samples(self, observation: Option<ObservationView>)
        requires
            self.is_ordered(),
            self.answered < self.submitted,
            !self.finished,
        ensures
            ({
                let after = self.heard(observation).weighed();
                &&& after.is_ordered()
                &&& after.answered >= MAX_OBSERVATIONS ==> after.finished
                &&& after.observations.len() >= CONSENSUS_SIZE && agrees(
                    after.observations,
                    most_consistent(after.observations),
                ) ==> after.finished
                &&& after.answered < CONSENSUS_SIZE ==> !after.finished && after.wanted
                    >= self.wanted
            }),
    {
    }

    /// Samples of a track are at least the interval apart.
    pub proof fn law_spaced_samples(self, now: u64, later: u64)
        requires
            self.sent(now).is_due(later),
        ensures
            later - now >= SAMPLE_INTERVAL,
    {
    }
}

} // verus!
