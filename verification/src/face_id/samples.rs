//! Which samples of a face are taken, and what several of them come to.

use vstd::prelude::*;
use vstd::arithmetic::power2::pow2;
use crate::bounds;
use crate::bounds::is_within;
use crate::double::Double;
use crate::face_id::capture::{
    running_mean, spec_capture_quality, spec_vertical_pose_proxy, CapturePose, CaptureView,
    FaceCaptureRequest,
};
use crate::face_id::consensus::{
    agrees, brightest, comes_before, consistency, darkest, is_most_consistent, is_triple, most_consistent,
    spec_consensus, spec_is_clear, spec_is_usable, ObservationView,
};
use crate::face_id::embedding;
use crate::face_id::gallery;
use crate::face_id::gallery::PoseGroup;
use crate::model::FaceView;
use crate::monotone;
use crate::monotone::size;
use crate::single::Single;

verus! {

/// The triples before one, and the best of them.
spec fn is_best_before(
    observations: Seq<ObservationView>,
    t: (int, int, int),
    u: (int, int, int),
) -> bool {
    &&& is_triple(observations, t)
    &&& comes_before(t, u)
    &&& forall|v: (int, int, int)| #[trigger]
        is_triple(observations, v) && comes_before(v, u) ==> if comes_before(v, t) {
            consistency(observations, v).rank() < consistency(observations, t).rank()
        } else {
            consistency(observations, v).rank() <= consistency(observations, t).rank()
        }
}

/// The search goes on with the next triple.
proof fn lemma_best_from(
    observations: Seq<ObservationView>,
    t: (int, int, int),
    i: int,
    j: int,
    k: int,
) -> (r: (int, int, int))
    requires
        0 <= i < observations.len(),
        i < j <= observations.len(),
        j < k <= observations.len() + 1,
        is_best_before(observations, t, (i, j, k)),
    ensures
        is_most_consistent(observations, r),
    decreases observations.len() - i, observations.len() - j, observations.len() + 1 - k,
{
    let n = observations.len() as int;
    if k < n {
        let u = (i, j, k);
        assert forall|v: (int, int, int)| #[trigger]
            is_triple(observations, v) && comes_before(v, (i, j, k + 1)) implies comes_before(v, u)
            || v == u by {}
        let best = if consistency(observations, t).rank() < consistency(observations, u).rank() {
            u
        } else {
            t
        };
        assert(is_triple(observations, u));
        assert(is_best_before(observations, best, (i, j, k + 1)));
        lemma_best_from(observations, best, i, j, k + 1)
    } else if j + 1 < n {
        assert forall|v: (int, int, int)| #[trigger] is_triple(observations, v) implies (
        comes_before(v, (i, j, k)) == comes_before(v, (i, j + 1, j + 2))) by {}
        assert(is_best_before(observations, t, (i, j + 1, j + 2)));
        lemma_best_from(observations, t, i, j + 1, j + 2)
    } else if i + 1 < n {
        assert forall|v: (int, int, int)| #[trigger] is_triple(observations, v) implies (
        comes_before(v, (i, j, k)) == comes_before(v, (i + 1, i + 2, i + 3))) by {}
        if i + 2 <= n && i + 3 <= n + 1 {
            assert(is_best_before(observations, t, (i + 1, i + 2, i + 3)));
            lemma_best_from(observations, t, i + 1, i + 2, i + 3)
        } else {
            t
        }
    } else {
        assert forall|v: (int, int, int)| #[trigger] is_triple(observations, v) implies (
        comes_before(v, (i, j, k))) by {}
        assert(is_most_consistent(observations, t));
        t
    }
}

/// A consensus is the mean of three observations, of which no other three are more similar to one
/// another in the mean of their pairs; it has the mean of their qualities and the head pose of the
/// latest of them, and counts all observations that there were.
pub proof fn law_consensus_of_the_most_similar(observations: Seq<ObservationView>)
    requires
        observations.len() >= 3,
    ensures
        ({
            let t = most_consistent(observations);
            let (a, b, c) = (observations[t.0], observations[t.1], observations[t.2]);
            let three = Single::integer(3);
            &&& 0 <= t.0 < t.1 < t.2 < observations.len()
            &&& forall|i: int, j: int, k: int|
                #![trigger observations[i], observations[j], observations[k]]
                0 <= i < j < k < observations.len() ==> {
                    let (x, y, z) = (
                        observations[i].embedding,
                        observations[j].embedding,
                        observations[k].embedding,
                    );
                    ((embedding::spec_cosine_similarity(x, y) + embedding::spec_cosine_similarity(
                        x,
                        z,
                    ) + embedding::spec_cosine_similarity(y, z)) / three).rank() <= ((
                    embedding::spec_cosine_similarity(a.embedding, b.embedding)
                        + embedding::spec_cosine_similarity(a.embedding, c.embedding)
                        + embedding::spec_cosine_similarity(b.embedding, c.embedding))
                        / three).rank()
                }
            &&& spec_consensus(observations) matches Ok(found) ==> {
                &&& embedding::spec_mean_embedding(
                    seq![a.embedding, b.embedding, c.embedding],
                ) == Ok::<Seq<Single>, Seq<char>>(found.embedding)
                &&& found.quality == (a.quality + b.quality + c.quality) / three
                &&& found.consistency == (embedding::spec_cosine_similarity(
                    a.embedding,
                    b.embedding,
                ) + embedding::spec_cosine_similarity(a.embedding, c.embedding)
                    + embedding::spec_cosine_similarity(b.embedding, c.embedding)) / three
                &&& found.group == c.group
                &&& found.frames == observations.len()
            }
            &&& spec_consensus(observations) is Ok <==> embedding::spec_mean_embedding(
                seq![a.embedding, b.embedding, c.embedding],
            ) is Ok
        }),
{
    let first = (0int, 1int, 2int);
    assert(is_triple(observations, first));
    assert(is_best_before(observations, first, (0, 1, 3))) by {
        assert forall|v: (int, int, int)| #[trigger]
            is_triple(observations, v) && comes_before(v, (0int, 1int, 3int)) implies v == first by {}
    }
    let best = lemma_best_from(observations, first, 0, 1, 3);
    assert(is_most_consistent(observations, best));
    let t = most_consistent(observations);
    assert(is_most_consistent(observations, t));
    assert forall|i: int, j: int, k: int|
        #![trigger observations[i], observations[j], observations[k]]
        0 <= i < j < k < observations.len() implies consistency(observations, (i, j, k)).rank()
        <= consistency(observations, t).rank() by {
        assert(is_triple(observations, (i, j, k)));
    }
}

/// A face is recognized by only where it was detected with confidence, is large and upright enough
/// and not turned away: each of these alone rejects it, and nothing else does.
pub proof fn law_poor_faces_are_rejected(face: FaceView)
    ensures
        ({
            let doubtful = face.confidence.less(Single::ratio(65, 100));
            let vague = face.landmark_confidence.less(Single::ratio(65, 100));
            let poor = spec_capture_quality(face).less(Single::ratio(65, 100));
            let small = (face.bounding_box.width * face.bounding_box.height).less(
                Double::ratio(12_544, 921_600),
            );
            let rolled = face.roll_radians is Some && Double::integer(35).less(
                face.roll_radians->0.to_degrees().abs(),
            );
            let turned = face.yaw_radians is Some && Double::integer(50).less(
                face.yaw_radians->0.to_degrees().abs(),
            );
            spec_is_usable(face) <==> !(doubtful || vague || poor || small || rolled || turned)
        }),
{
}

/// The brightest and the darkest value of a crop are values of it, and none is brighter or darker.
proof fn lemma_extremes(tensor: Seq<Single>, k: int)
    requires
        0 < k <= tensor.len(),
        forall|i: int| 0 <= i < k ==> (#[trigger] tensor[i]).is_finite() && tensor[i].value() >= 0,
    ensures
        !brightest(tensor, k).nan(),
        !darkest(tensor, k).nan(),
        forall|i: int|
            0 <= i < k ==> darkest(tensor, k).value() <= (#[trigger] tensor[i]).value()
                <= brightest(tensor, k).value(),
        exists|i: int| 0 <= i < k && (#[trigger] tensor[i]).value() == brightest(tensor, k).value(),
        exists|i: int| 0 <= i < k && (#[trigger] tensor[i]).value() == darkest(tensor, k).value(),
        brightest(tensor, k).is_finite(),
        darkest(tensor, k).is_finite(),
    decreases k,
{
    let last = tensor[k - 1];
    let zero = Single::integer(0);
    crate::dyadic::lemma_integer(0);
    assert(zero.value() == 0);
    let far = Single::from_bits(0x7F80_0000);
    last.lemma_order(far);
    last.lemma_order(zero);
    if k > 1 {
        lemma_extremes(tensor, k - 1);
        let i = choose|i: int|
            0 <= i < k - 1 && (#[trigger] tensor[i]).value() == brightest(tensor, k - 1).value();
        let j = choose|j: int|
            0 <= j < k - 1 && (#[trigger] tensor[j]).value() == darkest(tensor, k - 1).value();
        assert(brightest(tensor, k) == brightest(tensor, k - 1).max(last));
        assert(darkest(tensor, k) == darkest(tensor, k - 1).min(last));
        if brightest(tensor, k) == last {
            assert(tensor[k - 1].value() == brightest(tensor, k).value());
        } else {
            assert(tensor[i].value() == brightest(tensor, k).value());
        }
        if darkest(tensor, k) == last {
            assert(tensor[k - 1].value() == darkest(tensor, k).value());
        } else {
            assert(tensor[j].value() == darkest(tensor, k).value());
        }
    } else {
        assert(brightest(tensor, 0) == zero);
        assert(darkest(tensor, 0) == far);
        assert(brightest(tensor, 1) == zero.max(last));
        assert(darkest(tensor, 1) == far.min(last));
        assert(tensor[0] == last);
    }
}

/// A flat crop is not clear: one whose values are all the same, or differ by less than sixteen.
pub proof fn law_flat_crop_is_not_clear(tensor: Seq<Single>)
    requires
        tensor.len() > 0,
        forall|i: int|
            0 <= i < tensor.len() ==> (#[trigger] tensor[i]).is_finite() && tensor[i].value() >= 0,
        forall|i: int, j: int|
            0 <= i < tensor.len() && 0 <= j < tensor.len() ==> (#[trigger] tensor[i]
                - #[trigger] tensor[j]).less(Single::integer(16)),
    ensures
        !spec_is_clear(tensor),
{
    let n = tensor.len() as int;
    lemma_extremes(tensor, n);
    let i = choose|i: int| 0 <= i < n && (#[trigger] tensor[i]).value() == brightest(tensor, n).value();
    let j = choose|j: int| 0 <= j < n && (#[trigger] tensor[j]).value() == darkest(tensor, n).value();
    assert((tensor[i] - tensor[j]).less(Single::integer(16)));
    lemma_same_difference(brightest(tensor, n), darkest(tensor, n), tensor[i], tensor[j]);
}

/// Equal values have differences of one size.
proof fn lemma_same_difference(a: Single, b: Single, c: Single, d: Single)
    requires
        a.is_finite(),
        b.is_finite(),
        c.is_finite(),
        d.is_finite(),
        a.value() == c.value(),
        b.value() == d.value(),
    ensures
        (a - b).nan() == (c - d).nan(),
        (a - b).value() == (c - d).value(),
{
    reveal(Single::spec_add);
    a.lemma_order(b.negated());
    b.lemma_order(b.negated());
    d.lemma_order(d.negated());
    let x = Single::signed(a.negative() && b.negated().negative(), 0);
    let y = Single::signed(c.negative() && d.negated().negative(), 0);
    x.lemma_order(y);
}

/// The head pose group goes by how far a head is turned and tilted, whichever way: tilted by twelve
/// degrees or more, and turned by no more than fourteen, is vertical; otherwise turned by twelve
/// degrees or more is horizontal; else it is the centre. An angle that is missing is none.
pub proof fn law_head_pose_groups(yaw: Option<Double>, pitch: Option<Double>)
    requires
        yaw matches Some(angle) ==> !angle.nan(),
        pitch matches Some(angle) ==> !angle.nan(),
    ensures
        ({
            let unit = pow2(1074);
            let turned = if yaw is Some {
                yaw->0.magnitude()
            } else {
                0
            };
            let tilted = if pitch is Some {
                pitch->0.magnitude()
            } else {
                0
            };
            let group = PoseGroup::of(yaw, pitch);
            &&& group == PoseGroup::Vertical <==> turned <= 14 * unit && 12 * unit <= tilted
            &&& group == PoseGroup::Horizontal <==> 12 * unit <= turned && (turned > 14 * unit
                || tilted < 12 * unit)
            &&& group == PoseGroup::Center <==> turned < 12 * unit && tilted < 12 * unit
        }),
{
    monotone::lemma_integer(14);
    monotone::lemma_integer(12);
    vstd::arithmetic::power2::lemma_pow2_pos(1074);
    bounds::lemma_zero();
    let zero = Double { bits: 0 };
    zero.lemma_order(zero);
    if let Some(angle) = yaw {
        angle.lemma_order(angle.abs());
    }
    if let Some(angle) = pitch {
        angle.lemma_order(angle.abs());
    }
}

/// A mean with one value more is the mean of all, up to rounding.
pub proof fn law_running_mean(mean: Double, count: usize, value: Double)
    requires
        is_within(mean, 1500),
        is_within(value, 1500),
        count <= 1000,
    ensures
        ({
            let r = running_mean(mean, count, value);
            let exact = mean.value() * count + value.value();
            &&& r.is_finite()
            &&& 0x1_0000_0000_0000 * size(r.value() * (count + 1) - exact) <= mean.magnitude()
                * count + value.magnitude() + 0x1_0000_0000_0000 * (count + 1)
        }),
{
    let n = Double::integer(count as u64);
    let one = Double::integer(1);
    let unit = pow2(1074) as int;
    vstd::arithmetic::power2::lemma_pow2_pos(1074);
    vstd::arithmetic::power2::lemma2_to64();
    vstd::arithmetic::power2::lemma_pow2_adds(10, 1074);
    monotone::lemma_integer(count as u64);
    monotone::lemma_integer(1);
    monotone::lemma_integer((count + 1) as u64);
    mean.lemma_order(n);
    value.lemma_order(one);
    let d = n + one;
    assert(count * unit + unit == (count + 1) * unit) by (nonlinear_arith);
    let whole = Double::integer((count + 1) as u64);
    assert(0 <= count * unit <= 1024 * unit && 0 < (count + 1) * unit <= 1024 * unit)
        by (nonlinear_arith)
        requires
            0 <= count <= 1000,
            unit > 0,
    ;
    one.lemma_order(whole);
    bounds::lemma_sum_between(n, one, whole, whole);
    d.lemma_order(whole);
    assert(is_within(n, 1084));
    bounds::lemma_product_bound(mean, n, 1500, 1084);
    monotone::lemma_times_integer(mean, count as u64);
    let p = mean * n;
    p.lemma_order(value);
    bounds::lemma_within_wider(value, 1500, 1510);
    bounds::lemma_sum_within(p, value, 1510);
    bounds::lemma_sum_error(p, value);
    crate::patterns::lemma_small_powers(52);
    vstd::arithmetic::power2::lemma_pow2_unfold(53);
    let s = p + value;
    s.lemma_order(d);
    let (m, k) = (s.magnitude(), d.value());
    assert(m * unit <= pow2(1511) * k) by (nonlinear_arith)
        requires
            0 <= m <= pow2(1511),
            k == (count + 1) * unit,
            count >= 0,
            unit > 0,
    ;
    monotone::lemma_quotient_error(s, d, 1511);
    let r = (s / d).value();
    let c = count as int;
    let a = s.value();
    // the error of the quotient, in units
    let e = r * (c + 1) - a;
    assert(r * k - a * unit == e * unit) by (nonlinear_arith)
        requires
            k == (c + 1) * unit,
            e == r * (c + 1) - a,
    ;
    assert(size(e * unit) == size(e) * unit) by (nonlinear_arith)
        requires
            unit > 0,
    ;
    let big = 0x20_0000_0000_0000int;
    assert(big * size(e) <= m + 0x10_0000_0000_0000 * (c + 1)) by (nonlinear_arith)
        requires
            big * (size(e) * unit) <= m * unit + 0x10_0000_0000_0000 * ((c + 1) * unit),
            unit > 0,
    ;
    let w = c * mean.magnitude();
    assert(mean.magnitude() * count == w && mean.value() * count == c * mean.value() && w >= 0)
        by (nonlinear_arith)
        requires
            w == c * mean.magnitude(),
            c == count,
            mean.magnitude() >= 0,
            c >= 0,
    ;
    assert(size(c * mean.value()) == w) by (nonlinear_arith)
        requires
            w == c * mean.magnitude(),
            mean.value() == mean.magnitude() || mean.value() == -mean.magnitude(),
            mean.magnitude() >= 0,
            c >= 0,
    ;
}

impl CaptureView {
    /// The first straight sample tells where the nose stands, and each further one moves the mean
    /// of them; other samples leave it as it is.
    pub proof fn law_straight_samples_calibrate(self, request: FaceCaptureRequest)
        requires
            self.samples <= 3,
            self.neutral_vertical matches Some(neutral) ==> is_within(neutral, 1500),
            request.vertical_proxy matches Some(proxy) ==> is_within(proxy, 1500),
        ensures
            ({
                let after = self.accepted(request).neutral_vertical;
                match (request.pose, request.vertical_proxy, self.neutral_vertical) {
                    (CapturePose::Center, Some(proxy), None) => after == Some(proxy),
                    (CapturePose::Center, Some(proxy), Some(neutral)) => {
                        let n = self.samples as int;
                        let exact = neutral.value() * n + proxy.value();
                        &&& after is Some
                        &&& 0x1_0000_0000_0000 * size(after->0.value() * (n + 1) - exact)
                            <= neutral.magnitude() * n + proxy.magnitude() + 0x1_0000_0000_0000 * (n
                            + 1)
                    },
                    _ => after == self.neutral_vertical,
                }
            }),
    {
        if let (Some(proxy), Some(neutral)) = (request.vertical_proxy, self.neutral_vertical) {
            law_running_mean(neutral, self.samples, proxy);
        }
    }

    /// A steady face of good quality with native angles is asked for exactly where its pose is the
    /// one that is wanted: straight within ten degrees; turned by twelve to fifty degrees, to
    /// either side first and to the other one then; tilted by twelve to thirty degrees and turned
    /// by no more than fourteen, likewise.
    pub proof fn law_pose_is_asked_for(self, face: FaceView, now: u64)
        requires
            !self.pending,
            !self.completed,
            self.pose_index < 5,
            self.stable_since is Some,
            now - self.stable_since->0 >= 350_000_000,
            !spec_capture_quality(face).less(Single::ratio(65, 100)),
            face.yaw_radians is Some,
            face.pitch_radians is Some,
            face.yaw_radians->0.to_degrees().is_finite(),
            face.pitch_radians->0.to_degrees().is_finite(),
        ensures
            ({
                let unit = pow2(1074);
                let yaw = face.yaw_radians->0.to_degrees();
                let pitch = face.pitch_radians->0.to_degrees();
                let (turned, tilted) = (yaw.magnitude(), pitch.magnitude());
                let asked = self.request(face, now);
                let side = 12 * unit <= turned <= 50 * unit;
                let height = turned <= 14 * unit && 12 * unit <= tilted <= 30 * unit;
                &&& self.pose_index == 0 ==> asked is Some == (turned <= 10 * unit && tilted <= 10
                    * unit)
                &&& self.pose_index == 1 && self.horizontal_sign is None ==> asked is Some == side
                &&& self.pose_index == 2 && self.horizontal_sign is None ==> asked is None
                &&& self.pose_index == 3 && self.vertical_sign is None ==> asked is Some == height
                &&& self.pose_index == 4 && self.vertical_sign is None ==> asked is None
                &&& self.pose_index == 1 && self.horizontal_sign is Some ==> asked is Some == (side
                    && yaw.signum().equals(self.horizontal_sign->0))
                &&& self.pose_index == 2 && self.horizontal_sign is Some ==> asked is Some == (side
                    && yaw.signum().equals(self.horizontal_sign->0.negated()))
                &&& self.pose_index == 3 && self.vertical_sign is Some ==> asked is Some == (height
                    && pitch.signum().equals(self.vertical_sign->0))
                &&& self.pose_index == 4 && self.vertical_sign is Some ==> asked is Some == (height
                    && pitch.signum().equals(self.vertical_sign->0.negated()))
                &&& asked matches Some(request) ==> {
                    &&& request.yaw_degrees == yaw
                    &&& request.pitch_degrees == pitch
                    &&& request.vertical_proxy == spec_vertical_pose_proxy(face)
                    &&& request.quality == spec_capture_quality(face)
                    &&& request.pose == match self.pose_index {
                        0 => CapturePose::Center,
                        1 => CapturePose::Left,
                        2 => CapturePose::Right,
                        3 => CapturePose::Up,
                        _ => CapturePose::Down,
                    }
                }
            }),
    {
        monotone::lemma_integer(10);
        monotone::lemma_integer(12);
        monotone::lemma_integer(14);
        monotone::lemma_integer(30);
        monotone::lemma_integer(50);
        vstd::arithmetic::power2::lemma_pow2_pos(1074);
        let yaw = face.yaw_radians->0.to_degrees();
        let pitch = face.pitch_radians->0.to_degrees();
        yaw.lemma_order(yaw.abs());
        pitch.lemma_order(pitch.abs());
    }

    /// The first sample to the left, and the first one up, tell which sign that side has.
    pub proof fn law_first_side_sets_the_sign(self, request: FaceCaptureRequest)
        ensures
            ({
                let after = self.accepted(request);
                &&& self.horizontal_sign is None && request.pose == CapturePose::Left
                    ==> after.horizontal_sign == Some(request.yaw_degrees.signum())
                &&& self.vertical_sign is None && request.pose == CapturePose::Up
                    ==> after.vertical_sign == Some(request.pitch_degrees.signum())
                &&& self.horizontal_sign is Some || request.pose != CapturePose::Left
                    ==> after.horizontal_sign == self.horizontal_sign
                &&& self.vertical_sign is Some || request.pose != CapturePose::Up
                    ==> after.vertical_sign == self.vertical_sign
            }),
    {
    }
}

/// Three observations agree where each pair of them is similar by the threshold or more.
pub proof fn law_three_agree_pairwise(observations: Seq<ObservationView>, t: (int, int, int))
    ensures
        ({
            let (a, b, c) = (
                observations[t.0].embedding,
                observations[t.1].embedding,
                observations[t.2].embedding,
            );
            let least = Single::ratio(363, 1000);
            agrees(observations, t) <==> least.at_most(embedding::spec_cosine_similarity(a, b))
                && least.at_most(embedding::spec_cosine_similarity(a, c)) && least.at_most(
                embedding::spec_cosine_similarity(b, c),
            )
        }),
{
    gallery::law_threshold();
}

impl CaptureView {
    /// A face in the pose that is asked for starts the hold, keeps it going, and is asked for as a
    /// sample once it has been held for 350 milliseconds; a face that is not in the pose ends it.
    pub proof fn law_pose_is_held(self, face: FaceView, now: u64)
        requires
            !self.pending,
            !self.completed,
            self.pose_index < 5,
        ensures
            ({
                let after = self.observed(face, now);
                let fits = self.seen(face).objection() is None;
                &&& !fits ==> after.stable_since is None && self.request(face, now) is None
                &&& fits && self.stable_since is None ==> after.stable_since == Some(now)
                    && self.request(face, now) is None
                &&& fits && self.stable_since is Some && now - self.stable_since->0 < 350_000_000
                    ==> after.stable_since == self.stable_since && self.request(face, now) is None
                &&& fits && self.stable_since is Some && now - self.stable_since->0 >= 350_000_000
                    ==> self.request(face, now) is Some && after.pending
            }),
    {
    }
}

} // verus!
