//! How the quality of a face is made up.

use vstd::prelude::*;
use vstd::arithmetic::power2::pow2;
use crate::bounds;
use crate::camera::relief;
use crate::camera::turning;
use crate::double::Double;
use crate::dyadic;
use crate::dyadic::size;
use crate::face_id::capture::{roll_score, size_score, spec_capture_quality};
use crate::model::FaceView;
use crate::monotone;
use crate::patterns;
use crate::rounding;
use crate::single::Single;

verus! {

/// A score between nothing and one.
pub open spec fn is_score(x: Single) -> bool {
    x.is_finite() && !x.negative() && x.value() <= pow2(149)
}

/// The spacing of values below two.
proof fn lemma_gap(k: int)
    requires
        0 <= k < 0x4000_0000,
    ensures
        0 < rounding::mag(k + 1, 23) - rounding::mag(k, 23) <= pow2(126),
{
    vstd::arithmetic::power2::lemma2_to64();
    let (m, j) = rounding::lemma_split_exists(k, 23);
    rounding::lemma_mag_of_split(k, m, j, 23);
    vstd::arithmetic::power2::lemma_pow2_pos(j as nat);
    assert(j <= 126);
    if j < 126 {
        vstd::arithmetic::power2::lemma_pow2_strictly_increases(j as nat, 126);
    }
    let p = pow2(j as nat) as int;
    assert((m + 1) * p - m * p == p) by (nonlinear_arith);
}

/// What rounding makes of a value of no more than two: it is off by half a spacing at most.
proof fn lemma_close(n: int, d: int)
    requires
        d > 0,
        0 <= n <= 2 * pow2(149) * d,
    ensures
        Single::nearest(false, n, d).is_finite(),
        !Single::nearest(false, n, d).negative(),
        Single::nearest(false, n, d).magnitude() <= 2 * pow2(149),
        2 * size(Single::nearest(false, n, d).magnitude() * d - n) <= pow2(126) * d,
{
    reveal(Single::nearest);
    reveal(Single::magnitude);
    Single::lemma_format();
    vstd::arithmetic::power2::lemma2_to64();
    vstd::arithmetic::power2::lemma_pow2_adds(23, 127);
    vstd::arithmetic::power2::lemma_pow2_unfold(150);
    vstd::arithmetic::power2::lemma_pow2_pos(126);
    let inf = patterns::infinity(23, 255);
    let k = patterns::rounded(n, d, 23, 255);
    rounding::lemma_nearest_exists(n, d, 23, inf);
    let top = 0x4000_0000int;
    rounding::lemma_mag_of_split(top, 0x80_0000, 127, 23);
    assert(rounding::mag(top, 23) == 2 * pow2(149));
    assert(k <= top) by {
        if k > top {
            rounding::lemma_mag_increases(top, k, 23);
            if top < k - 1 {
                rounding::lemma_mag_increases(top, k - 1, 23);
            }
            let (low, here) = (rounding::mag(k - 1, 23), rounding::mag(k, 23));
            let most = 2 * pow2(149) as int;
            assert((low + here) * d > 2 * n) by (nonlinear_arith)
                requires
                    low >= most,
                    here > most,
                    n <= most * d,
                    d > 0,
            ;
        }
    }
    rounding::lemma_mag_nonnegative(k, 23);
    let here = rounding::mag(k, 23);
    let step = pow2(126) as int;
    if k > 0 {
        lemma_gap(k - 1);
        let low = rounding::mag(k - 1, 23);
        assert(2 * (here * d - n) <= step * d) by (nonlinear_arith)
            requires
                (low + here) * d <= 2 * n,
                here - low <= step,
                d > 0,
        ;
    } else {
        assert(here == 0);
        assert(0 * d == 0) by (nonlinear_arith);
        assert(step * d >= 0) by (nonlinear_arith)
            requires
                step > 0,
                d > 0,
        ;
    }
    if k < top {
        lemma_gap(k);
        rounding::lemma_mag_increases(k, top, 23);
        let high = rounding::mag(k + 1, 23);
        assert(2 * (n - here * d) <= step * d) by (nonlinear_arith)
            requires
                2 * n <= (here + high) * d,
                high - here <= step,
                d > 0,
        ;
    } else {
        let most = 2 * pow2(149) as int;
        assert(n - here * d <= 0) by (nonlinear_arith)
            requires
                here == most,
                n <= most * d,
        ;
        assert(step * d >= 0) by (nonlinear_arith)
            requires
                step > 0,
                d > 0,
        ;
    }
}

/// A number of tenths of a score.
proof fn lemma_tenths(c: Single, n: u64)
    requires
        is_score(c),
        0 < n <= 10,
    ensures
        ({
            let p = c * Single::ratio(n, 10);
            &&& p.is_finite() && !p.negative()
            &&& size(10 * p.value() - n * c.value()) <= 20 * pow2(126)
        }),
{
    let unit = pow2(149) as int;
    let step = pow2(126) as int;
    vstd::arithmetic::power2::lemma_pow2_pos(149);
    vstd::arithmetic::power2::lemma_pow2_pos(126);
    vstd::arithmetic::power2::lemma2_to64();
    vstd::arithmetic::power2::lemma_pow2_adds(23, 126);
    let nu = n * unit;
    assert(0 <= nu <= 10 * unit) by (nonlinear_arith)
        requires
            nu == n * unit,
            0 < n <= 10,
            unit > 0,
    ;
    lemma_close(nu, 10);
    let r = Single::ratio(n, 10);
    r.lemma_order(c);
    let (x, y) = (c.magnitude(), r.magnitude());
    assert(y <= 2 * unit);
    assert(0 <= x * y <= 2 * unit * unit) by (nonlinear_arith)
        requires
            0 <= x <= unit,
            0 <= y <= 2 * unit,
    ;
    lemma_close(x * y, unit);
    reveal(Single::spec_mul);
    let p = (c * r).magnitude();
    assert(c * r == Single::nearest(false, x * y, unit));
    let e = 10 * y - nu;
    let g = p * unit - x * y;
    let far = 10 * p - n * x;
    assert(far * unit == 10 * g + x * e) by (nonlinear_arith)
        requires
            far == 10 * p - n * x,
            g == p * unit - x * y,
            e == 10 * y - n * unit,
    ;
    assert(size(x * e) <= unit * size(e)) by (nonlinear_arith)
        requires
            0 <= x <= unit,
    ;
    assert(unit * size(e) <= 5 * (step * unit)) by (nonlinear_arith)
        requires
            2 * size(e) <= step * 10,
            unit > 0,
    ;
    assert(size(far * unit) == size(far) * unit) by (nonlinear_arith)
        requires
            unit > 0,
    ;
    assert(size(far) * unit <= 20 * step * unit) by {
        assert(20 * step * unit == 20 * (step * unit)) by (nonlinear_arith);
    }
    assert(size(far) <= 20 * step) by (nonlinear_arith)
        requires
            size(far) * unit <= 20 * step * unit,
            unit > 0,
    ;
}

/// A sum of scores.
proof fn lemma_added(a: Single, b: Single)
    requires
        a.is_finite(),
        b.is_finite(),
        !a.negative(),
        !b.negative(),
        a.value() + b.value() <= 2 * pow2(149),
    ensures
        (a + b).is_finite(),
        !(a + b).negative(),
        2 * size((a + b).value() - (a.value() + b.value())) <= pow2(126),
{
    reveal(Single::spec_add);
    a.lemma_order(b);
    vstd::arithmetic::power2::lemma_pow2_pos(126);
    let s = a.value() + b.value();
    if s > 0 {
        lemma_close(s, 1);
        let r = Single::nearest(false, s, 1);
        assert(r.magnitude() * 1 == r.magnitude());
    } else {
        let zero = Single::signed(false, 0);
        zero.lemma_order(zero);
    }
}

/// The quality of a face is made up of four tenths of its confidence, three of that of its
/// landmarks, two of a score for its size and one of a score for how upright it is, up to rounding.
pub proof fn law_quality_weighs_its_parts(face: FaceView)
    requires
        is_score(face.confidence),
        is_score(face.landmark_confidence),
        is_score(size_score(face.bounding_box.width, face.bounding_box.height)),
        is_score(roll_score(face.roll_radians)),
    ensures
        ({
            let quality = spec_capture_quality(face);
            let exact = 4 * face.confidence.value() + 3 * face.landmark_confidence.value() + 2
                * size_score(face.bounding_box.width, face.bounding_box.height).value()
                + roll_score(face.roll_radians).value();
            quality.is_finite() && 0x8000 * size(10 * quality.value() - exact) <= pow2(149)
        }),
{
    let (c, l) = (face.confidence, face.landmark_confidence);
    let s = size_score(face.bounding_box.width, face.bounding_box.height);
    let r = roll_score(face.roll_radians);
    vstd::arithmetic::power2::lemma_pow2_pos(149);
    vstd::arithmetic::power2::lemma_pow2_pos(126);
    vstd::arithmetic::power2::lemma2_to64();
    vstd::arithmetic::power2::lemma_pow2_adds(23, 126);
    lemma_tenths(c, 4);
    lemma_tenths(l, 3);
    lemma_tenths(s, 2);
    lemma_tenths(r, 1);
    let (p, q) = (c * Single::ratio(4, 10), l * Single::ratio(3, 10));
    let (m, n) = (s * Single::ratio(2, 10), r * Single::ratio(1, 10));
    c.lemma_order(l);
    s.lemma_order(r);
    p.lemma_order(q);
    m.lemma_order(n);
    lemma_added(p, q);
    lemma_added(p + q, m);
    lemma_added(p + q + m, n);
    let sum = p + q + m + n;
    dyadic::lemma_integer(0);
    dyadic::lemma_integer(1);
    sum.lemma_order(sum);
    lemma_made_up(
        pow2(126) as int,
        pow2(149) as int,
        c.value(),
        l.value(),
        s.value(),
        r.value(),
        p.value(),
        q.value(),
        m.value(),
        n.value(),
        (p + q).value(),
        (p + q + m).value(),
        sum.value(),
    );
}

/// The errors of a quality.
proof fn lemma_made_up(
    t: int,
    u: int,
    c: int,
    l: int,
    s: int,
    r: int,
    p: int,
    q: int,
    m: int,
    n: int,
    a: int,
    b: int,
    d: int,
)
    requires
        u == 0x80_0000 * t,
        t > 0,
        0 <= c <= u,
        0 <= l <= u,
        0 <= s <= u,
        0 <= r <= u,
        size(10 * p - 4 * c) <= 20 * t,
        size(10 * q - 3 * l) <= 20 * t,
        size(10 * m - 2 * s) <= 20 * t,
        size(10 * n - r) <= 20 * t,
        2 * size(a - (p + q)) <= t,
        2 * size(b - (a + m)) <= t,
        2 * size(d - (b + n)) <= t,
    ensures
        ({
            let exact = 4 * c + 3 * l + 2 * s + r;
            let cut = if d < 0 {
                0
            } else if d > u {
                u
            } else {
                d
            };
            0x8000 * size(10 * cut - exact) <= u
        }),
{
    let exact = 4 * c + 3 * l + 2 * s + r;
    assert(-100 * t <= 10 * d - exact <= 100 * t);
    assert(0 <= exact <= 10 * u);
}

/// A quotient of a value by one that is no greater is one or more.
proof fn lemma_one_or_more(a: Double, b: Double)
    requires
        a.is_finite(),
        b.is_finite(),
        0 < b.value() <= a.value(),
    ensures
        !(a / b).nan(),
        (a / b).value() >= pow2(1074),
{
    turning::lemma_over_itself(b, b);
    turning::lemma_quotient_order_signed(b, a, b);
}

/// An upright face scores one, one that is rolled by thirty-five degrees or more none, and one
/// whose roll is not known three quarters; a face that covers eight hundredths of the image or more
/// scores one for its size.
pub proof fn law_scores_at_their_ends(roll: Double, width: Double, height: Double)
    requires
        roll.to_degrees().is_finite(),
        (width * height).is_finite(),
    ensures
        roll_score(None) == Single::ratio(75, 100),
        roll.to_degrees().value() == 0 ==> dyadic::is_dyadic(roll_score(Some(roll)), 1, 0),
        roll.to_degrees().magnitude() >= 35 * pow2(1074) ==> dyadic::is_dyadic(
            roll_score(Some(roll)),
            0,
            0,
        ),
        Double::ratio(8, 100).at_most(width * height) ==> dyadic::is_dyadic(
            size_score(width, height),
            1,
            0,
        ),
{
    vstd::arithmetic::power2::lemma_pow2_pos(1074);
    let (zero, one) = (Double { bits: 0 }, Double::integer(1));
    bounds::lemma_zero();
    bounds::lemma_one();
    zero.lemma_order(one);
    assert(0 * pow2(1074) == 0);
    let angle = roll.to_degrees().abs();
    angle.lemma_order(roll.to_degrees());
    let limit = Double::integer(35);
    monotone::lemma_integer(35);
    let part = angle / limit;
    if roll.to_degrees().value() == 0 {
        monotone::lemma_zero_over(angle, limit);
        part.lemma_order(zero);
        bounds::lemma_plus_zero(one, part.negated());
        let score = (one - part).clamp(zero, one);
        dyadic::lemma_to_single(score, 1, 0);
    }
    if roll.to_degrees().magnitude() >= 35 * pow2(1074) {
        lemma_one_or_more(angle, limit);
        part.lemma_order(one);
        let rest = one - part;
        if part.infinite() {
            assert(rest.negative() && !rest.nan()) by {
                reveal(Double::spec_add);
            }
            rest.lemma_order(zero);
        } else {
            monotone::lemma_difference_order(one, part, one, one);
            lemma_none_left(one);
        }
        let score = rest.clamp(zero, one);
        score.lemma_order(zero);
        dyadic::lemma_to_single(score, 0, 0);
    }
    let least = Double::ratio(8, 100);
    relief::lemma_ratio_error(8, 100);
    bounds::lemma_ratio_positive(8, 100);
    if least.at_most(width * height) {
        lemma_one_or_more(width * height, least);
        let share = (width * height) / least;
        share.lemma_order(one);
        let score = share.min(one);
        score.lemma_order(one);
        dyadic::lemma_to_single(score, 1, 0);
    }
}

proof fn lemma_none_left(x: Double)
    requires
        x.is_finite(),
    ensures
        (x - x).value() == 0,
{
    reveal(Double::spec_add);
    x.lemma_order(x.negated());
    bounds::lemma_signed(x.negative() && x.negated().negative(), 0);
    (x - x).lemma_order(x);
}

} // verus!
