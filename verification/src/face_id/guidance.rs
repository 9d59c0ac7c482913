//! What a guided capture makes of how a head is held.

use vstd::prelude::*;
use vstd::arithmetic::power2::pow2;
use crate::bounds;
use crate::double::Double;
use crate::face_id::capture::{
    nose_height, spec_capture_quality, spec_landmark_pitch_degrees, spec_vertical_pose_proxy,
    CapturePose, CaptureView,
};
use crate::model;
use crate::model::{epsilon, FaceView, LandmarkKind};
use crate::monotone;
use crate::patterns;
use crate::single::Single;

verus! {

/// A value is finite and no greater than `2^500`, the sign aside.
pub open spec fn is_moderate(x: Double) -> bool {
    bounds::is_within(x, 1574)
}

/// The size of a number.
pub open spec fn size(n: int) -> int {
    if n < 0 {
        -n
    } else {
        n
    }
}

/// Two hundred times a difference, rounded.
proof fn lemma_pitch(current: Double, neutral: Double)
    requires
        is_moderate(current),
        is_moderate(neutral),
    ensures
        ({
            let pitch = (current - neutral) * Double::integer(200);
            let exact = 200 * (current.value() - neutral.value());
            &&& pitch.is_finite()
            &&& 0x8_0000_0000_0000 * size(pitch.value() - exact) <= size(exact)
        }),
{
    vstd::arithmetic::power2::lemma2_to64();
    vstd::arithmetic::power2::lemma_pow2_adds(8, 1074);
    vstd::arithmetic::power2::lemma_pow2_pos(1074);
    let factor = Double::integer(200);
    let way = current - neutral;
    bounds::lemma_signed(!neutral.negative(), neutral.pattern() as int);
    neutral.lemma_order(neutral.negated());
    bounds::lemma_sum_within(current, neutral.negated(), 1574);
    monotone::lemma_integer(200);
    assert(bounds::is_within(factor, 1082));
    bounds::lemma_product_bound(way, factor, 1575, 1082);
    monotone::lemma_difference_error(current, neutral);
    monotone::lemma_times_integer(way, 200);
    way.lemma_order(way);
}

impl CaptureView {
    /// Without native pitch, and once straight samples have told where the nose stands, the pitch
    /// that is shown is two hundred degrees per unit of the difference between where the nose
    /// stands and where it stood, up to rounding: none at the neutral place, and of the sign of
    /// the difference elsewhere.
    pub proof fn law_pitch_follows_the_nose(self, face: FaceView, now: u64)
        requires
            !self.pending,
            !self.completed,
            self.pose_index < 5,
            face.pitch_radians is None,
            self.neutral_vertical is Some,
            spec_vertical_pose_proxy(face) is Some,
            is_moderate(self.neutral_vertical->0),
            is_moderate(spec_vertical_pose_proxy(face)->0),
        ensures
            ({
                let exact = 200 * (spec_vertical_pose_proxy(face)->0.value()
                    - self.neutral_vertical->0.value());
                let after = self.observed(face, now);
                &&& after.pitch_estimated
                &&& after.pitch_degrees matches Some(pitch)
                &&& pitch.is_finite()
                &&& 0x8_0000_0000_0000 * size(pitch.value() - exact) <= size(exact)
                &&& pitch.value() > 0 <==> exact > 0
                &&& pitch.value() < 0 <==> exact < 0
                &&& self.request(face, now) matches Some(request) ==> request.pitch_degrees
                    == pitch
            }),
    {
        lemma_pitch(spec_vertical_pose_proxy(face)->0, self.neutral_vertical->0);
    }

    /// A face without native pitch whose nose stands higher is shown with no less pitch.
    pub proof fn law_pitch_grows_with_the_nose(self, face: FaceView, other: FaceView, now: u64)
        requires
            !self.pending,
            !self.completed,
            self.pose_index < 5,
            face.pitch_radians is None,
            other.pitch_radians is None,
            self.neutral_vertical is Some,
            spec_vertical_pose_proxy(face) is Some,
            spec_vertical_pose_proxy(other) is Some,
            is_moderate(self.neutral_vertical->0),
            is_moderate(spec_vertical_pose_proxy(face)->0),
            is_moderate(spec_vertical_pose_proxy(other)->0),
            spec_vertical_pose_proxy(face)->0.at_most(spec_vertical_pose_proxy(other)->0),
        ensures
            ({
                let lower = self.observed(face, now).pitch_degrees;
                let higher = self.observed(other, now).pitch_degrees;
                lower is Some && higher is Some && lower->0.at_most(higher->0)
            }),
    {
        let neutral = self.neutral_vertical->0;
        let p = spec_vertical_pose_proxy(face)->0;
        let q = spec_vertical_pose_proxy(other)->0;
        let factor = Double::integer(200);
        lemma_pitch(p, neutral);
        lemma_pitch(q, neutral);
        monotone::lemma_integer(200);
        vstd::arithmetic::power2::lemma_pow2_pos(1074);
        lemma_finite_way(p, neutral);
        lemma_finite_way(q, neutral);
        monotone::lemma_difference_order(p, neutral, q, neutral);
        let x = p - neutral;
        let y = q - neutral;
        x.lemma_order(y);
        (x * factor).lemma_order(y * factor);
        if x.value() >= 0 {
            monotone::lemma_product_order(x, factor, y, factor);
        } else if y.value() <= 0 {
            let u = x.negated();
            let v = y.negated();
            u.lemma_order(x);
            v.lemma_order(y);
            lemma_mirrored(x, factor);
            lemma_mirrored(y, factor);
            monotone::lemma_product_order(v, factor, u, factor);
        } else {
            monotone::lemma_times_integer(x, 200);
            monotone::lemma_times_integer(y, 200);
        }
    }

    /// Without native pitch, an upright and steady face whose nose stands away from its neutral
    /// place by more than six hundredths and less than fifteen is asked for as the first sample of
    /// the pose up. The pose down then takes just such a face on the other side.
    pub proof fn law_nose_asks_for_tilted_samples(self, face: FaceView, now: u64)
        requires
            !self.pending,
            !self.completed,
            self.pose_index == 3 || self.pose_index == 4,
            self.stable_since is Some,
            now - self.stable_since->0 >= 350_000_000,
            face.pitch_radians is None,
            face.yaw_radians is Some,
            face.yaw_radians->0.to_degrees().abs().at_most(Double::integer(14)),
            !spec_capture_quality(face).less(Single::ratio(65, 100)),
            self.neutral_vertical is Some,
            spec_vertical_pose_proxy(face) is Some,
            is_moderate(self.neutral_vertical->0),
            is_moderate(spec_vertical_pose_proxy(face)->0),
            ({
                let way = 200 * (spec_vertical_pose_proxy(face)->0.value()
                    - self.neutral_vertical->0.value());
                12 * pow2(1074) + pow2(1034) <= size(way) <= 30 * pow2(1074) - pow2(1034)
            }),
        ensures
            ({
                let way = spec_vertical_pose_proxy(face)->0.value()
                    - self.neutral_vertical->0.value();
                let up = Double::integer(1);
                let asked = self.request(face, now);
                &&& self.pose_index == 3 && self.vertical_sign is None ==> asked is Some
                    && asked->0.pose == CapturePose::Up && self.observed(face, now).accepted(
                    asked->0,
                ).vertical_sign == Some(
                    if way > 0 {
                        up
                    } else {
                        up.negated()
                    },
                )
                &&& self.pose_index == 3 && self.vertical_sign == Some(up) ==> asked is Some == (way
                    > 0)
                &&& self.pose_index == 3 && self.vertical_sign == Some(up.negated()) ==> asked is Some
                    == (way < 0)
                &&& self.pose_index == 4 && self.vertical_sign == Some(up) ==> asked is Some == (way
                    < 0)
                &&& self.pose_index == 4 && self.vertical_sign == Some(up.negated()) ==> asked is Some
                    == (way > 0)
                &&& asked is Some ==> asked->0.pose == if self.pose_index == 3 {
                    CapturePose::Up
                } else {
                    CapturePose::Down
                }
            }),
    {
        let current = spec_vertical_pose_proxy(face)->0;
        let neutral = self.neutral_vertical->0;
        let pitch = (current - neutral) * Double::integer(200);
        let exact = 200 * (current.value() - neutral.value());
        lemma_pitch(current, neutral);
        vstd::arithmetic::power2::lemma_pow2_pos(1074);
        vstd::arithmetic::power2::lemma_pow2_pos(1034);
        vstd::arithmetic::power2::lemma_pow2_adds(40, 1034);
        vstd::arithmetic::power2::lemma2_to64();
        vstd::arithmetic::power2::lemma2_to64_rest();
        monotone::lemma_integer(12);
        monotone::lemma_integer(30);
        monotone::lemma_integer(14);
        let one = pow2(1074) as int;
        let bit = pow2(1034) as int;
        assert(one == 0x100_0000_0000 * bit);
        pitch.lemma_order(pitch.abs());
        lemma_signs(pitch);
        let seen = self.seen(face);
        assert(seen.pitch_degrees == Some(pitch));
    }
}

/// The difference of moderate values is finite.
proof fn lemma_finite_way(a: Double, b: Double)
    requires
        is_moderate(a),
        is_moderate(b),
    ensures
        (a - b).is_finite(),
{
    bounds::lemma_signed(!b.negative(), b.pattern() as int);
    b.lemma_order(b.negated());
    bounds::lemma_sum_within(a, b.negated(), 1574);
}

/// A product has the size of that of the opposite.
proof fn lemma_mirrored(x: Double, factor: Double)
    requires
        x.is_finite(),
        factor.is_finite(),
        !factor.negative(),
        factor.value() > 0,
        (x * factor).is_finite(),
    ensures
        (x.negated() * factor).is_finite(),
        (x.negated() * factor).value() == -(x * factor).value(),
{
    reveal(Double::spec_mul);
    reveal(Double::nearest);
    Double::lemma_format();
    vstd::arithmetic::power2::lemma_pow2_pos(1074);
    let y = x.negated();
    x.lemma_order(y);
    let n = x.magnitude() * factor.magnitude();
    let unit = pow2(1074) as int;
    crate::rounding::lemma_nearest_exists(n, unit, 52, patterns::infinity(52, 2047));
    let k = patterns::rounded(n, unit, 52, 2047);
    bounds::lemma_signed(true, k);
    bounds::lemma_signed(false, k);
}

/// One with the sign of a value that is not zero.
proof fn lemma_signs(x: Double)
    requires
        x.is_finite(),
        x.value() != 0,
    ensures
        x.signum() == if x.value() > 0 {
            Double::integer(1)
        } else {
            Double::integer(1).negated()
        },
        Double::integer(1).negated().negated() == Double::integer(1),
        Double::integer(1).equals(Double::integer(1)),
        Double::integer(1).negated().equals(Double::integer(1).negated()),
        !Double::integer(1).equals(Double::integer(1).negated()),
        !Double::integer(1).negated().equals(Double::integer(1)),
{
    x.lemma_order(x);
    monotone::lemma_integer(1);
    vstd::arithmetic::power2::lemma_pow2_pos(1074);
    let one = Double { bits: 0x3FF0_0000_0000_0000 };
    bounds::lemma_power_pattern(1074);
    bounds::lemma_exact(0x3FF0_0000_0000_0000);
    assert(one == Double::integer(1)) by {
        reveal(Double::magnitude);
        one.lemma_order(Double::integer(1));
    }
    one.lemma_order(one.negated());
}

/// The nose's place of heights, from its errors.
proof fn lemma_place(u: int, e: int, d: int, n: int, c: int, r: int)
    requires
        u > 0,
        d > 0,
        e > 0,
        0x20_0000_0000_0000 * size(d - e) <= e,
        0x20_0000_0000_0000 * size(c - n) <= size(n),
        0x20_0000_0000_0000 * size(r * d - c * u) <= size(c) * u + 0x10_0000_0000_0000 * d,
    ensures
        0x4_0000_0000_0000 * size(r * e - n * u) <= size(n) * u + 0x8_0000_0000_0000 * e,
{
    let big = 0x20_0000_0000_0000int;
    let x = r * d - c * u;
    let y = c - n;
    let z = d - e;
    assert(r * e == r * d - r * z) by (nonlinear_arith)
        requires
            z == d - e,
    ;
    assert(c * u == n * u + y * u) by (nonlinear_arith)
        requires
            c == n + y,
    ;
    assert(size(y * u) == size(y) * u && size(c * u) == size(c) * u) by (nonlinear_arith)
        requires
            u > 0,
    ;
    bounds::lemma_product_order(big * size(y), size(n), u);
    assert(big * size(y) * u == big * (size(y) * u)) by (nonlinear_arith);
    bounds::lemma_product_order(size(c), 2 * size(n), u);
    assert(2 * size(n) * u == 2 * (size(n) * u)) by (nonlinear_arith);
    let nu = size(n) * u;
    assert(nu >= 0) by (nonlinear_arith)
        requires
            nu == size(n) * u,
            u > 0,
    ;
    // the quotient times the divisor
    assert(size(r * d) == size(r) * d) by (nonlinear_arith)
        requires
            d > 0,
    ;
    assert(size(r * d) <= size(c) * u + size(x));
    assert(size(r * z) == size(r) * size(z)) by (nonlinear_arith);
    assert(big * (size(r) * size(z)) <= 2 * (size(r) * d)) by (nonlinear_arith)
        requires
            big * size(z) <= 2 * d,
            size(r) >= 0,
    ;
    assert(size(r * e - n * u) <= size(x) + size(y * u) + size(r * z));
}

/// The nose's place is nothing at the height of the mouth, one at that of the eyes, and in between
/// and beyond by its height, up to rounding. There is none where the mouth is level with the eyes.
pub proof fn law_nose_stands_between_mouth_and_eyes(eyes: Double, nose: Double, mouth: Double)
    requires
        is_moderate(eyes),
        is_moderate(nose),
        is_moderate(mouth),
    ensures
        epsilon().less(eyes - mouth) ==> {
            let (high, up) = (eyes.value() - mouth.value(), nose.value() - mouth.value());
            &&& nose_height(eyes, nose, mouth) matches Some(place)
            &&& place.is_finite()
            &&& 0x4_0000_0000_0000 * size(place.value() * high - up * pow2(1074)) <= size(up)
                * pow2(1074) + 0x8_0000_0000_0000 * high
        },
        (eyes - mouth).abs().at_most(epsilon()) ==> nose_height(eyes, nose, mouth) is None,
{
    if epsilon().less(eyes - mouth) {
        let unit = pow2(1074) as int;
        vstd::arithmetic::power2::lemma_pow2_pos(1074);
        vstd::arithmetic::power2::lemma_pow2_pos(1022);
        bounds::lemma_power_ratio();
        lemma_finite_way(eyes, mouth);
        lemma_finite_way(nose, mouth);
        bounds::lemma_sum_within(nose, mouth, 1574);
        monotone::lemma_difference_error(eyes, mouth);
        monotone::lemma_difference_error(nose, mouth);
        let (d, c) = (eyes - mouth, nose - mouth);
        d.lemma_order(d.abs());
        c.lemma_order(d);
        vstd::arithmetic::power2::lemma_pow2_adds(1575, 1074);
        vstd::arithmetic::power2::lemma_pow2_adds(1640, 1022);
        vstd::arithmetic::power2::lemma_pow2_strictly_increases(2649, 2662);
        let (m, t) = (c.magnitude(), d.value());
        assert(m * unit <= pow2(1640) * t) by (nonlinear_arith)
            requires
                0 <= m <= pow2(1575),
                unit > 0,
                pow2(1575) * unit <= pow2(1640) * pow2(1022),
                pow2(1022) <= t,
                pow2(1640) >= 0,
        ;
        monotone::lemma_quotient_error(c, d, 1640);
        lemma_place(
            unit,
            eyes.value() - mouth.value(),
            d.value(),
            nose.value() - mouth.value(),
            c.value(),
            (c / d).value(),
        );
    }
}

/// The nose's place of a face goes by the heights of the middles of its eyes, its nose and its
/// outer lips; there is none where one of them is missing.
pub proof fn law_nose_place_of_a_face(face: FaceView)
    ensures
        match (
            model::spec_region_center(face.landmarks, LandmarkKind::LeftEye),
            model::spec_region_center(face.landmarks, LandmarkKind::RightEye),
            model::spec_nose(face.landmarks),
            model::spec_region_center(face.landmarks, LandmarkKind::OuterLips),
        ) {
            (Some(left), Some(right), Some(nose), Some(mouth)) => spec_vertical_pose_proxy(face)
                == nose_height((left.y + right.y) / Double::integer(2), nose.y, mouth.y),
            _ => spec_vertical_pose_proxy(face) is None,
        },
{
}

/// Without native pitch the label shows two hundred degrees per unit of the nose's place above the
/// middle, cut off at forty-five degrees to either side, up to rounding.
pub proof fn law_shown_pitch_follows_the_nose(face: FaceView)
    requires
        spec_vertical_pose_proxy(face) is Some,
        is_moderate(spec_vertical_pose_proxy(face)->0),
    ensures
        ({
            let unit = pow2(1074);
            let exact = 200 * spec_vertical_pose_proxy(face)->0.value() - 100 * unit;
            &&& spec_landmark_pitch_degrees(face) matches Some(pitch)
            &&& pitch.is_finite()
            &&& exact >= 46 * unit ==> pitch.value() == 45 * unit
            &&& exact <= -46 * unit ==> pitch.value() == -45 * unit
            &&& -44 * unit <= exact <= 44 * unit ==> 0x8_0000_0000_0000 * size(
                pitch.value() - exact,
            ) <= size(exact)
        }),
{
    let unit = pow2(1074) as int;
    vstd::arithmetic::power2::lemma_pow2_pos(1074);
    let proxy = spec_vertical_pose_proxy(face)->0;
    let half = Double::ratio(1, 2);
    bounds::lemma_ratio_below(1, 2, 4);
    bounds::lemma_ratio_above(1, 2, 4);
    vstd::arithmetic::power2::lemma_pow2_adds(3, 1071);
    vstd::arithmetic::power2::lemma2_to64();
    half.lemma_order(half);
    vstd::arithmetic::power2::lemma_pow2_strictly_increases(1074, 1574);
    lemma_pitch(proxy, half);
    monotone::lemma_integer(45);
    let limit = Double::integer(45);
    limit.lemma_order(limit.negated());
}

} // verus!
