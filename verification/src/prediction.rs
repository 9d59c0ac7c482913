//! Faces are looked for where their motion takes them.

use vstd::prelude::*;
use vstd::arithmetic::power2::pow2;
use crate::assignment;
use crate::bounds;
use crate::bounds::is_within;
use crate::camera::relief;
use crate::double::Double;
use crate::lengths;
use crate::model::{epsilon, BoundingBox, FaceView, Point};
use crate::monotone;
use crate::monotone::size;
use crate::motion;
use crate::motion::{
    center, diagonal, intersection_over_union, seconds, seconds_between, shared_height,
    shared_width,
};
use crate::patterns;
use crate::placing;
use crate::root;
use crate::rounding;
use crate::scaling;
use crate::tracker;
use crate::tracker::{
    invalid_match_cost, relative_distance, unmatched_cost, weighted_cost, TrackView, Update,
};
use crate::weight;

verus! {

/// A coordinate between -1024 and 1024.
pub open spec fn is_place(x: Double) -> bool {
    x.is_finite() && x.magnitude() <= pow2(1084)
}

/// A length between 1/1024 and 1024.
pub open spec fn is_length(x: Double) -> bool {
    x.is_finite() && pow2(1064) <= x.value() <= pow2(1084)
}

/// A box of a common size at a common place.
pub open spec fn is_plain(bounds: BoundingBox) -> bool {
    &&& is_place(bounds.x)
    &&& is_place(bounds.y)
    &&& is_length(bounds.width)
    &&& is_length(bounds.height)
}

/// The powers of two that lengths are compared with.
proof fn lemma_powers()
    ensures
        pow2(1032) > 0,
        pow2(1064) == 0x1_0000_0000 * pow2(1032),
        pow2(1074) == 0x400_0000_0000 * pow2(1032),
        pow2(1084) == 0x10_0000_0000_0000 * pow2(1032),
        pow2(1085) == 0x20_0000_0000_0000 * pow2(1032),
        pow2(52) == 0x10_0000_0000_0000,
        pow2(53) == 0x20_0000_0000_0000,
{
    vstd::arithmetic::power2::lemma2_to64();
    vstd::arithmetic::power2::lemma2_to64_rest();
    vstd::arithmetic::power2::lemma_pow2_pos(1032);
    vstd::arithmetic::power2::lemma_pow2_adds(32, 1032);
    vstd::arithmetic::power2::lemma_pow2_adds(42, 1032);
    vstd::arithmetic::power2::lemma_pow2_adds(52, 1032);
    vstd::arithmetic::power2::lemma_pow2_adds(53, 1032);
}

/// A side from its ends is the side, but for a billionth.
proof fn lemma_side(x: Double, w: Double)
    requires
        is_place(x),
        is_length(w),
    ensures
        ({
            let side = (x + w) - x;
            &&& (x + w).is_finite()
            &&& side.is_finite()
            &&& 0x4000_0000 * (side.value() - w.value()) <= w.value()
            &&& 0x4000_0000 * (w.value() - side.value()) <= w.value()
        }),
{
    lemma_powers();
    x.lemma_order(w);
    bounds::lemma_sum_within(x, w, 1084);
    bounds::lemma_sum_error(x, w);
    let end = x + w;
    vstd::arithmetic::power2::lemma_pow2_strictly_increases(1084, 1085);
    bounds::lemma_sum_within(end, x, 1085);
    monotone::lemma_difference_error(end, x);
}

/// A product of common lengths, and its error.
proof fn lemma_area(a: Double, b: Double)
    requires
        a.is_finite(),
        b.is_finite(),
        pow2(1063) <= a.value() <= pow2(1085),
        pow2(1063) <= b.value() <= pow2(1085),
    ensures
        ({
            let area = a * b;
            let exact = a.value() * b.value();
            &&& area.is_finite()
            &&& !area.negative()
            &&& exact > 0
            &&& 0x10_0000_0000_0000 * (area.value() * pow2(1074) - exact) <= exact
            &&& 0x10_0000_0000_0000 * (exact - area.value() * pow2(1074)) <= exact
        }),
{
    lemma_powers();
    let unit = pow2(1074) as int;
    vstd::arithmetic::power2::lemma_pow2_pos(1074);
    vstd::arithmetic::power2::lemma_pow2_pos(1063);
    a.lemma_order(b);
    bounds::lemma_product_sign(a, b);
    bounds::lemma_product_bound(a, b, 1085, 1085);
    let n = a.magnitude() * b.magnitude();
    vstd::arithmetic::power2::lemma_pow2_adds(1063, 1063);
    vstd::arithmetic::power2::lemma_pow2_adds(52, 1074);
    vstd::arithmetic::power2::lemma_pow2_strictly_increases(1126, 2126);
    assert(n >= pow2(1063) * pow2(1063)) by (nonlinear_arith)
        requires
            n == a.magnitude() * b.magnitude(),
            a.magnitude() >= pow2(1063) >= 0,
            b.magnitude() >= pow2(1063),
    ;
    reveal(Double::spec_mul);
    reveal(Double::nearest);
    Double::lemma_format();
    rounding::lemma_nearest_exists(n, unit, 52, patterns::infinity(52, 2047));
    let k = patterns::rounded(n, unit, 52, 2047);
    bounds::lemma_signed(false, k);
    bounds::lemma_rounding_error(n, unit);
}

/// A product of two numbers that are near two others is near their product.
proof fn lemma_near_product(w: int, h: int, v: int, k: int)
    requires
        w > 0,
        h > 0,
        0x4000_0000 * (v - w) <= w,
        0x4000_0000 * (w - v) <= w,
        0x4000_0000 * (k - h) <= h,
        0x4000_0000 * (h - k) <= h,
    ensures
        0x1000_0000 * (v * k - w * h) <= w * h,
        0x1000_0000 * (w * h - v * k) <= w * h,
        w * h > 0,
{
    let a = v - w;
    let b = k - h;
    assert(v * k == w * h + a * h + w * b + a * b) by (nonlinear_arith)
        requires
            v == w + a,
            k == h + b,
    ;
    assert(w * h > 0) by (nonlinear_arith)
        requires
            w > 0,
            h > 0,
    ;
    let q = w * h;
    bounds::lemma_product_order(0x4000_0000 * a, w, h);
    bounds::lemma_product_order(0x4000_0000 * (-a), w, h);
    bounds::lemma_product_order(0x4000_0000 * b, h, w);
    bounds::lemma_product_order(0x4000_0000 * (-b), h, w);
    assert(0x4000_0000 * a * h == 0x4000_0000 * (a * h)) by (nonlinear_arith);
    assert(0x4000_0000 * (-a) * h == -0x4000_0000 * (a * h)) by (nonlinear_arith);
    assert(0x4000_0000 * b * w == 0x4000_0000 * (w * b)) by (nonlinear_arith);
    assert(0x4000_0000 * (-b) * w == -0x4000_0000 * (w * b)) by (nonlinear_arith);
    assert(h * w == q) by (nonlinear_arith)
        requires
            q == w * h,
    ;
    let m = if a < 0 {
        -a
    } else {
        a
    };
    let n = if b < 0 {
        -b
    } else {
        b
    };
    assert(m <= w && m * h >= 0x4000_0000 * 0 && n <= h);
    assert(-(m * h) <= a * b <= m * h) by (nonlinear_arith)
        requires
            0 <= n <= h,
            0 <= m,
            a == m || a == -m,
            b == n || b == -n,
    ;
    assert(m * h == a * h || m * h == -(a * h)) by (nonlinear_arith)
        requires
            a == m || a == -m,
    ;
}

/// The spacing of doubles at one is small.
pub(crate) proof fn lemma_epsilon()
    ensures
        epsilon().is_finite(),
        0 < epsilon().value() <= pow2(1022),
{
    reveal(Double::nearest);
    patterns::lemma_small_powers(52);
    vstd::arithmetic::power2::lemma_pow2_adds(1022, 52);
    vstd::arithmetic::power2::lemma_pow2_pos(1022);
    bounds::lemma_nearest_within(false, 1u64 * pow2(1074), 4503599627370496, 1022);
    bounds::lemma_nearest_signed(false, 1u64 * pow2(1074), 4503599627370496);
    bounds::lemma_ratio_positive(1, 4503599627370496);
}

/// What a box shares with itself: nearly all of its area.
proof fn lemma_self_shared(b: BoundingBox)
    requires
        is_plain(b),
    ensures
        ({
            let area = b.width * b.height;
            let shared = shared_width(b, b) * shared_height(b, b);
            let union = area + area - shared;
            &&& shared_width(b, b).is_finite() && shared_width(b, b).value() > 0
            &&& shared_height(b, b).is_finite() && shared_height(b, b).value() > 0
            &&& area.is_finite() && area.value() >= pow2(1052)
            &&& shared.is_finite() && !shared.negative()
            &&& 0x800_0000 * (shared.value() - area.value()) <= area.value()
            &&& 0x800_0000 * (area.value() - shared.value()) <= area.value()
            &&& (area + area).is_finite()
            &&& union.is_finite()
            &&& 0x400_0000 * (union.value() - area.value()) <= area.value()
            &&& 0x400_0000 * (area.value() - union.value()) <= area.value()
            &&& union.value() > epsilon().value()
        }),
{
    lemma_powers();
    let (w, h) = (b.width, b.height);
    let sw = shared_width(b, b);
    let sh = shared_height(b, b);
    lemma_side(b.x, w);
    lemma_side(b.y, h);
    vstd::arithmetic::power2::lemma_pow2_adds(31, 1032);
    vstd::arithmetic::power2::lemma2_to64();
    assert(pow2(1063) == 0x8000_0000 * pow2(1032));
    lemma_area(w, h);
    lemma_area(sw, sh);
    lemma_near_product(w.value(), h.value(), sw.value(), sh.value());
    let area = w * h;
    let shared = sw * sh;
    let unit = pow2(1074) as int;
    let q = w.value() * h.value();
    let r = sw.value() * sh.value();
    let au = area.value() * unit;
    let iu = shared.value() * unit;
    let (a, i) = (area.value(), shared.value());
    assert(0x800_0000 * (iu - au) <= au && 0x800_0000 * (au - iu) <= au);
    assert(0x800_0000 * (i - a) <= a && 0x800_0000 * (a - i) <= a) by (nonlinear_arith)
        requires
            0x800_0000 * (iu - au) <= au,
            0x800_0000 * (au - iu) <= au,
            iu == i * unit,
            au == a * unit,
            unit > 0,
    ;
    // the area is not small
    vstd::arithmetic::power2::lemma_pow2_adds(1064, 1064);
    vstd::arithmetic::power2::lemma_pow2_adds(1054, 1074);
    vstd::arithmetic::power2::lemma_pow2_adds(2, 1052);
    assert(q >= pow2(1064) * pow2(1064)) by (nonlinear_arith)
        requires
            q == w.value() * h.value(),
            w.value() >= pow2(1064) >= 0,
            h.value() >= pow2(1064),
    ;
    let least = pow2(1052) as int;
    vstd::arithmetic::power2::lemma_pow2_pos(1052);
    assert(pow2(1054) == 4 * least);
    assert(a >= least) by (nonlinear_arith)
        requires
            q >= 4 * least * unit,
            0x10_0000_0000_0000 * (q - a * unit) <= q,
            unit > 0,
            least > 0,
    ;
    area.lemma_order(shared);
    // the union
    vstd::arithmetic::power2::lemma_pow2_strictly_increases(1084, 1085);
    bounds::lemma_product_bound(w, h, 1085, 1085);
    bounds::lemma_product_bound(sw, sh, 1085, 1085);
    bounds::lemma_sum_within(area, area, 1096);
    bounds::lemma_sum_error(area, area);
    let both = area + area;
    bounds::lemma_within_wider(shared, 1096, 1097);
    bounds::lemma_sum_within(both, shared, 1097);
    monotone::lemma_difference_error(both, shared);
    lemma_epsilon();
    vstd::arithmetic::power2::lemma_pow2_adds(30, 1022);
}

/// A box overlaps with itself wholly, but for a millionth.
pub proof fn law_box_overlaps_itself(b: BoundingBox)
    requires
        is_plain(b),
    ensures
        ({
            let overlap = intersection_over_union(b, b);
            &&& overlap.is_finite()
            &&& 0x10_0000 * (overlap.value() - pow2(1074)) <= pow2(1074)
            &&& 0x10_0000 * (pow2(1074) - overlap.value()) <= pow2(1074)
        }),
{
    lemma_powers();
    lemma_self_shared(b);
    bounds::lemma_zero();
    let zero = Double { bits: 0 };
    zero.lemma_order(zero);
    let unit = pow2(1074) as int;
    vstd::arithmetic::power2::lemma_pow2_pos(1074);
    vstd::arithmetic::power2::lemma_pow2_pos(1052);
    let area = b.width * b.height;
    let shared = shared_width(b, b) * shared_height(b, b);
    let union = area + area - shared;
    let overlap = intersection_over_union(b, b);
    shared.lemma_order(union);
    area.lemma_order(union);
    let (a, i, u) = (area.value(), shared.value(), union.value());
    assert(overlap == shared / union);
    reveal(Double::spec_div);
    let n = i * unit;
    assert(0 < n <= 2 * unit * u) by (nonlinear_arith)
        requires
            n == i * unit,
            0 < i <= 2 * u,
            unit > 0,
    ;
    vstd::arithmetic::power2::lemma_pow2_unfold(1075);
    bounds::lemma_nearest_within(false, n, u, 1075);
    bounds::lemma_nearest_signed(false, n, u);
    assert(overlap == Double::nearest(false, n, u));
    let q = overlap.magnitude();
    assert(0x8_0000_0000_0000 * (q * u - n) <= n && 0x8_0000_0000_0000 * (n - q * u) <= n) by {
        reveal(Double::nearest);
        Double::lemma_format();
        rounding::lemma_nearest_exists(n, u, 52, patterns::infinity(52, 2047));
        let k = patterns::rounded(n, u, 52, 2047);
        bounds::lemma_signed(false, k);
        bounds::lemma_rounding_error(n, u);
        vstd::arithmetic::power2::lemma2_to64_rest();
        vstd::arithmetic::power2::lemma_pow2_strictly_increases(54, 1074);
        assert(pow2(52) * u <= n) by (nonlinear_arith)
            requires
                pow2(52) == 0x10_0000_0000_0000,
                unit >= 0x40_0000_0000_0000,
                n == i * unit,
                u <= 2 * i,
                i > 0,
        ;
    }
    let qa = q * a;
    let ua = unit * a;
    bounds::lemma_product_order(0x3FF_FFFF * a, 0x400_0000 * u, q);
    bounds::lemma_product_order(0x400_0000 * u, 0x400_0001 * a, q);
    bounds::lemma_product_order(0x800_0000 * i, 0x800_0001 * a, unit);
    bounds::lemma_product_order(0x7FF_FFFF * a, 0x800_0000 * i, unit);
    assert(0x3FF_FFFF * a * q == 0x3FF_FFFF * qa) by (nonlinear_arith)
        requires
            qa == q * a,
    ;
    assert(0x400_0000 * u * q == 0x400_0000 * (q * u)) by (nonlinear_arith);
    assert(0x400_0001 * a * q == 0x400_0001 * qa) by (nonlinear_arith)
        requires
            qa == q * a,
    ;
    assert(0x800_0000 * i * unit == 0x800_0000 * n) by (nonlinear_arith)
        requires
            n == i * unit,
    ;
    assert(0x800_0001 * a * unit == 0x800_0001 * ua) by (nonlinear_arith)
        requires
            ua == unit * a,
    ;
    assert(0x7FF_FFFF * a * unit == 0x7FF_FFFF * ua) by (nonlinear_arith)
        requires
            ua == unit * a,
    ;
    assert(0x10_0000 * (qa - ua) <= ua && 0x10_0000 * (ua - qa) <= ua);
    assert(0x10_0000 * (q - unit) <= unit && 0x10_0000 * (unit - q) <= unit) by (nonlinear_arith)
        requires
            0x10_0000 * (qa - ua) <= ua,
            0x10_0000 * (ua - qa) <= ua,
            qa == q * a,
            ua == unit * a,
            a > 0,
    ;
}

/// Two sides of equal length share the most where they begin at one place.
proof fn lemma_shared_side(x: Double, y: Double, w: Double)
    requires
        is_place(x),
        is_place(y),
        is_length(w),
    ensures
        ({
            let shared = (x + w).min(y + w) - x.max(y);
            &&& shared.is_finite()
            &&& shared.value() <= ((x + w) - x).value()
        }),
{
    lemma_powers();
    vstd::arithmetic::power2::lemma_pow2_strictly_increases(1084, 1085);
    x.lemma_order(y);
    w.lemma_order(w);
    bounds::lemma_sum_within(x, w, 1084);
    bounds::lemma_sum_within(y, w, 1084);
    let end = (x + w).min(y + w);
    let begin = x.max(y);
    bounds::lemma_sum_within(end, begin, 1085);
    if x.value() <= y.value() {
        monotone::lemma_sum_order(x, w, y, w);
    } else {
        monotone::lemma_sum_order(y, w, x, w);
    }
    monotone::lemma_difference_order(end, begin, x + w, x);
}

/// No box of equal size overlaps more with a box than one at its place.
proof fn lemma_overlap_order(p: BoundingBox, d: BoundingBox)
    requires
        is_plain(p),
        is_plain(d),
        d.width == p.width,
        d.height == p.height,
    ensures
        intersection_over_union(p, d).is_finite(),
        0 <= intersection_over_union(p, d).value() <= intersection_over_union(p, p).value(),
{
    lemma_powers();
    law_box_overlaps_itself(p);
    lemma_self_shared(p);
    lemma_shared_side(p.x, d.x, p.width);
    lemma_shared_side(p.y, d.y, p.height);
    bounds::lemma_zero();
    lemma_epsilon();
    let zero = Double { bits: 0 };
    zero.lemma_order(zero);
    let (v, k) = (shared_width(p, d), shared_height(p, d));
    let (w, h) = (shared_width(p, p), shared_height(p, p));
    let area = p.width * p.height;
    let (i, j) = (v * k, w * h);
    let (r, u) = (area + area - i, area + area - j);
    if v.value() > 0 && k.value() > 0 {
        v.lemma_order(k);
        w.lemma_order(h);
        monotone::lemma_product_order(v, k, w, h);
        bounds::lemma_product_sign(v, k);
        i.lemma_order(j);
        assert(i.is_finite());
        monotone::lemma_difference_order(area + area, j, area + area, i);
        u.lemma_order(r);
        (area + area).lemma_order(r);
        area.lemma_order(area);
        assert(r.is_finite()) by {
            monotone::lemma_difference_order(area + area, i, area + area, zero);
            bounds::lemma_signed(true, 0);
            zero.lemma_order(zero.negated());
            bounds::lemma_plus_zero(area + area, zero.negated());
            (area + area - zero).lemma_order(r);
        }
        if r.value() > epsilon().value() {
            monotone::lemma_quotient_order(i, r, j, u);
            (i / r).lemma_order(j / u);
        }
    }
}

/// The scale of a distance is positive.
proof fn lemma_scale(left: BoundingBox, right: BoundingBox)
    ensures
        ({
            let scale = ((diagonal(left) + diagonal(right)) / Double::integer(2)).max(
                Double::ratio(5, 100),
            );
            !scale.nan() && scale.value() > 0 && !scale.negative()
        }),
{
    let least = Double::ratio(5, 100);
    bounds::lemma_ratio_positive(5, 100);
    let scale = ((diagonal(left) + diagonal(right)) / Double::integer(2)).max(least);
    least.lemma_order(scale);
}

/// The middle of a common box.
proof fn lemma_center(b: BoundingBox)
    requires
        is_plain(b),
    ensures
        is_within(center(b).x, 1086),
        is_within(center(b).y, 1086),
{
    lemma_half_length(b.width);
    lemma_half_length(b.height);
    vstd::arithmetic::power2::lemma_pow2_strictly_increases(1084, 1085);
    bounds::lemma_sum_within(b.x, b.width / Double::integer(2), 1085);
    bounds::lemma_sum_within(b.y, b.height / Double::integer(2), 1085);
}

proof fn lemma_half_length(x: Double)
    requires
        is_length(x),
    ensures
        is_within(x / Double::integer(2), 1085),
{
    let two = Double::integer(2);
    monotone::lemma_integer(2);
    vstd::arithmetic::power2::lemma_pow2_pos(1074);
    vstd::arithmetic::power2::lemma_pow2_pos(1064);
    vstd::arithmetic::power2::lemma_pow2_strictly_increases(1084, 1085);
    x.lemma_order(two);
    let unit = pow2(1074) as int;
    let m = x.magnitude();
    assert(m * unit <= pow2(1085) * two.magnitude()) by (nonlinear_arith)
        requires
            0 <= m <= pow2(1085),
            two.magnitude() == 2 * unit,
            unit > 0,
    ;
    bounds::lemma_nearest_within(false, m * unit, two.magnitude(), 1085);
    reveal(Double::spec_div);
}

/// A box is at no distance from one at its place.
proof fn lemma_no_distance(p: BoundingBox)
    requires
        is_plain(p),
    ensures
        relative_distance(p, p).is_finite(),
        relative_distance(p, p).value() == 0,
{
    lemma_center(p);
    lemma_scale(p, p);
    let c = center(p);
    bounds::lemma_moved_alike(p.x, p.x, p.width / Double::integer(2));
    bounds::lemma_moved_alike(p.y, p.y, p.height / Double::integer(2));
    vstd::arithmetic::power2::lemma_pow2_strictly_increases(1087, 1500);
    bounds::lemma_sum_within(c.x, c.x, 1086);
    bounds::lemma_sum_within(c.y, c.y, 1086);
    bounds::lemma_hypot_of_nothing(c.x - c.x, c.y - c.y);
    lengths::lemma_hypot_error(c.x - c.x, c.y - c.y);
    let scale = ((diagonal(p) + diagonal(p)) / Double::integer(2)).max(Double::ratio(5, 100));
    monotone::lemma_zero_over(c.distance(c), scale);
}

/// A distance is not negative.
proof fn lemma_distance_sign(p: BoundingBox, d: BoundingBox)
    requires
        is_plain(p),
        is_plain(d),
    ensures
        ({
            let distance = relative_distance(p, d);
            distance.nan() || !distance.negative()
        }),
{
    lemma_center(p);
    lemma_center(d);
    lemma_scale(p, d);
    let (a, b) = (center(p), center(d));
    vstd::arithmetic::power2::lemma_pow2_strictly_increases(1087, 1500);
    bounds::lemma_sum_within(a.x, b.x, 1086);
    bounds::lemma_sum_within(a.y, b.y, 1086);
    lengths::lemma_hypot_error(a.x - b.x, a.y - b.y);
    let scale = ((diagonal(p) + diagonal(d)) / Double::integer(2)).max(Double::ratio(5, 100));
    bounds::lemma_quotient_sign(a.distance(b), scale);
}

/// A square is not negative.
proof fn lemma_square_sign(x: Double)
    ensures
        !(x * x).negative(),
{
    reveal(Double::spec_mul);
    vstd::arithmetic::power2::lemma_pow2_pos(1074);
    bounds::lemma_nearest_signed(false, x.magnitude() * x.magnitude(), pow2(1074) as int);
}

proof fn lemma_root_sign(x: Double, y: Double)
    ensures
        !(x * x + y * y).sqrt().negative(),
{
    lemma_square_sign(x);
    lemma_square_sign(y);
    bounds::lemma_sum_sign(x * x, y * y);
    reveal(Double::spec_sqrt);
    let s = x * x + y * y;
    s.lemma_order(s);
    Double::lemma_format();
    let n = s.magnitude() * pow2(1074);
    let inf = patterns::infinity(52, 2047);
    let r = scaling::lemma_root_from(0, n, inf);
    root::lemma_nearest_root_is(r, n, 52, inf);
    if s.pattern() != 0 && !s.nan() && !s.infinite() {
        bounds::lemma_signed(false, r);
    }
}

/// A distance is not negative.
proof fn lemma_hypot_sign(x: Double, y: Double)
    ensures
        !x.hypot(y).negative(),
{
    let up = Double { bits: 0x6570_0000_0000_0000 };
    let down = Double { bits: 0x1A70_0000_0000_0000 };
    lemma_root_sign(x, y);
    lemma_root_sign(x * up, y * up);
    lemma_root_sign(x * down, y * down);
    bounds::lemma_product_sign(
        ((x * up) * (x * up) + (y * up) * (y * up)).sqrt(),
        down,
    );
    bounds::lemma_product_sign(
        ((x * down) * (x * down) + (y * down) * (y * down)).sqrt(),
        up,
    );
}

/// How faces differ in shape is not negative.
proof fn lemma_shape_sign(previous: FaceView, current: FaceView)
    ensures
        motion::spec_landmark_shape_distance(previous, current) matches Some(distance)
            ==> !distance.negative(),
{
    if motion::spec_landmark_shape_distance(previous, current) is Some {
        let old = crate::model::spec_region(
            previous.landmarks,
            crate::model::LandmarkKind::AllPoints,
        )->0;
        let new = crate::model::spec_region(
            current.landmarks,
            crate::model::LandmarkKind::AllPoints,
        )->0;
        let n = old.len() as int;
        lemma_shape_sum_sign(old, previous.bounding_box, new, current.bounding_box, n);
        let sum = motion::shape_sum(old, previous.bounding_box, new, current.bounding_box, n);
        let count = Double::integer(old.len() as u64);
        Double::law_ratios_are_ordered(old.len() as u64, 1, old.len() as u64, 1);
        bounds::lemma_quotient_sign(sum, count);
        bounds::lemma_quotient_sign(sum / count, motion::root_of_two());
    }
}

proof fn lemma_shape_sum_sign(
    previous: Seq<Point>,
    previous_bounds: BoundingBox,
    current: Seq<Point>,
    current_bounds: BoundingBox,
    k: int,
)
    ensures
        !motion::shape_sum(previous, previous_bounds, current, current_bounds, k).negative(),
    decreases k,
{
    if k <= 0 {
        bounds::lemma_zero();
    } else {
        lemma_shape_sum_sign(previous, previous_bounds, current, current_bounds, k - 1);
        let a = motion::normalized_point(previous[k - 1], previous_bounds);
        let b = motion::normalized_point(current[k - 1], current_bounds);
        lemma_hypot_sign(a.x - b.x, a.y - b.y);
        bounds::lemma_sum_sign(
            motion::shape_sum(previous, previous_bounds, current, current_bounds, k - 1),
            a.distance(b),
        );
    }
}

/// A value that is not negative, cut off at one.
proof fn lemma_cut(x: Double)
    requires
        x.nan() || !x.negative(),
    ensures
        x.min(Double::integer(1)).is_finite(),
        0 <= x.min(Double::integer(1)).value() <= pow2(1074),
        !x.min(Double::integer(1)).negative(),
{
    let one = Double::integer(1);
    bounds::lemma_one();
    x.lemma_order(one);
    if x.infinite() {
        one.lemma_order(x);
    }
}

/// Less overlap and more distance cost no less, and more where the distance is not next to
/// nothing.
#[verifier::rlimit(40)]
proof fn lemma_cost_order(o: Double, q: Double, z: Double, d: Double, l: Double)
    requires
        o.is_finite(),
        q.is_finite(),
        z.is_finite(),
        0x10_0000 * (o.value() - pow2(1074)) <= pow2(1074),
        0 <= q.value() <= o.value(),
        z.value() == 0,
        d.nan() || !d.negative(),
        l.nan() || !l.negative(),
    ensures
        ({
            let here = weighted_cost(o, z, l);
            let there = weighted_cost(q, d, l);
            &&& here.is_finite()
            &&& there.is_finite()
            &&& here.value() <= there.value()
            &&& is_within(here, 1077)
            &&& is_within(there, 1077)
            &&& pow2(1044) <= d.min(Double::integer(1)).value() ==> here.value() + pow2(1034)
                <= there.value()
        }),
{
    let one = Double::integer(1);
    let (six, three, tenth) = (Double::ratio(6, 10), Double::ratio(3, 10), Double::ratio(1, 10));
    bounds::lemma_one();
    lemma_powers();
    vstd::arithmetic::power2::lemma_pow2_adds(2, 1032);
    vstd::arithmetic::power2::lemma_pow2_adds(10, 1032);
    vstd::arithmetic::power2::lemma_pow2_adds(12, 1032);
    vstd::arithmetic::power2::lemma_pow2_adds(43, 1032);
    vstd::arithmetic::power2::lemma_pow2_adds(44, 1032);
    vstd::arithmetic::power2::lemma_pow2_adds(40, 1032);
    vstd::arithmetic::power2::lemma2_to64();
    vstd::arithmetic::power2::lemma2_to64_rest();
    let t = pow2(1032) as int;
    let unit = pow2(1074) as int;
    bounds::lemma_ratio_below(6, 10, 6);
    bounds::lemma_ratio_below(3, 10, 3);
    bounds::lemma_ratio_below(1, 10, 1);
    bounds::lemma_ratio_positive(6, 10);
    bounds::lemma_ratio_positive(3, 10);
    bounds::lemma_ratio_positive(1, 10);
    vstd::arithmetic::power2::lemma_pow2_adds(3, 1071);
    assert(pow2(1074) == 8 * bounds::eighth());
    six.lemma_order(three);
    tenth.lemma_order(one);
    // what is not shared
    let rest = one - o;
    let other = one - q;
    o.lemma_order(one);
    q.lemma_order(one);
    assert(is_within(o, 1075) && is_within(q, 1075));
    assert(is_within(one, 1075));
    bounds::lemma_sum_within(one, o, 1075);
    bounds::lemma_sum_within(one, q, 1075);
    monotone::lemma_difference_order(one, o, one, q);
    monotone::lemma_difference_error(one, o);
    monotone::lemma_difference_error(one, q);
    rest.lemma_order(other);
    assert(is_within(rest, 1075) && is_within(other, 1075));
    let a = six * rest;
    let b = six * other;
    monotone::lemma_scaled_order(six, rest, other);
    bounds::lemma_product_bound(six, rest, 1074, 1075);
    bounds::lemma_product_bound(six, other, 1074, 1075);
    // how far away
    lemma_cut(d);
    let near = z.min(one);
    let far = d.min(one);
    z.lemma_order(one);
    assert(near == z && is_within(z, 1074));
    let e = three * near;
    let f = three * far;
    monotone::lemma_scaled_order(three, near, far);
    bounds::lemma_product_bound(three, near, 1074, 1074);
    bounds::lemma_product_bound(three, far, 1074, 1074);
    e.lemma_order(f);
    // shape
    lemma_cut(l);
    let c = tenth * l.min(one);
    monotone::lemma_scaled_order(tenth, l.min(one), l.min(one));
    bounds::lemma_product_bound(tenth, l.min(one), 1074, 1074);
    c.lemma_order(c);
    // sums
    bounds::lemma_within_wider(e, 1074, 1075);
    bounds::lemma_within_wider(f, 1074, 1075);
    a.lemma_order(b);
    bounds::lemma_sum_within(a, e, 1075);
    bounds::lemma_sum_within(b, f, 1075);
    monotone::lemma_sum_order(a, e, b, f);
    bounds::lemma_sum_error(a, e);
    bounds::lemma_sum_error(b, f);
    let x = a + e;
    let y = b + f;
    bounds::lemma_within_wider(c, 1074, 1076);
    x.lemma_order(y);
    bounds::lemma_sum_within(x, c, 1076);
    bounds::lemma_sum_within(y, c, 1076);
    monotone::lemma_sum_order(x, c, y, c);
    bounds::lemma_sum_error(x, c);
    bounds::lemma_sum_error(y, c);
    if pow2(1044) <= far.value() {
        vstd::arithmetic::power2::lemma_pow2_adds(2, 1072);
        bounds::lemma_share_above(3, 10, 1072);
        far.lemma_order(three);
        monotone::lemma_product_above(three, far, 1072, 1044);
        lemma_margin(
            t,
            a.value() + e.value(),
            b.value(),
            f.value(),
            x.value(),
            y.value(),
            c.value(),
            (x + c).value(),
            (y + c).value(),
        );
    }
}

/// A number is the other one, but for a rounding.
spec fn is_rounded(r: int, n: int) -> bool {
    &&& n >= 0 ==> -n <= 0x20_0000_0000_0000 * (r - n) <= n
    &&& n <= 0 ==> n <= 0x20_0000_0000_0000 * (r - n) <= -n
}

/// Rounding does not take back what a distance costs.
proof fn lemma_margin(t: int, a: int, b: int, f: int, x: int, y: int, c: int, h: int, g: int)
    requires
        t > 0,
        a <= b,
        -0x1000_0000_0000 * t <= a,
        b <= 0x1000_0000_0000 * t,
        0x400 * t <= f <= 0x1000_0000_0000 * t,
        0 <= c <= 0x1000_0000_0000 * t,
        is_rounded(x, a),
        is_rounded(y, b + f),
        is_rounded(h, x + c),
        is_rounded(g, y + c),
    ensures
        h + 4 * t <= g,
{
    assert(x - a <= t);
    assert(y - (b + f) >= -t);
    assert(h - (x + c) <= t);
    assert(g - (y + c) >= -t);
}

/// Where a track's face is expected at a time: as far from where it was last seen as its velocity
/// takes it in the seconds since then, half a second at most.
pub open spec fn is_expected(track: TrackView, now: u64, place: BoundingBox) -> bool {
    let time = seconds_between(track.last_observed_at, now).min(Double::ratio(1, 2));
    &&& place.x == track.last_observed_bounds.x + track.velocity.x * time
    &&& place.y == track.last_observed_bounds.y + track.velocity.y * time
    &&& place.width == track.last_observed_bounds.width
    &&& place.height == track.last_observed_bounds.height
}

/// How much the shape of a detection differs from that of a track's face.
pub open spec fn shape_difference(track: TrackView, detection: FaceView) -> Option<Double> {
    motion::spec_landmark_shape_distance(track.geometry, detection)
}

proof fn lemma_place_costs(track: TrackView, here: FaceView, there: FaceView, now: u64)
    requires
        is_expected(track, now, here.bounding_box),
        is_plain(here.bounding_box),
        is_plain(there.bounding_box),
        there.bounding_box.width == here.bounding_box.width,
        there.bounding_box.height == here.bounding_box.height,
        shape_difference(track, here) == shape_difference(track, there),
    ensures
        ({
            let near = track.match_cost(here, now);
            let far = track.match_cost(there, now);
            let distance = relative_distance(here.bounding_box, there.bounding_box);
            &&& is_within(near, 1077)
            &&& is_within(far, 1094)
            &&& near.value() <= far.value()
            &&& !track.is_far(here, now)
            &&& pow2(1044) <= distance.min(Double::integer(1)).value() ==> near.value() + pow2(1034)
                <= far.value()
        }),
{
    let p = here.bounding_box;
    let d = there.bounding_box;
    assert(track.predicted_bounds(now) == p);
    law_box_overlaps_itself(p);
    lemma_overlap_order(p, d);
    lemma_no_distance(p);
    lemma_distance_sign(p, d);
    lemma_shape_sign(track.geometry, here);
    Double::law_ratios_are_ordered(1, 2, 1, 2);
    bounds::lemma_ratio_positive(125, 100);
    let shape = match shape_difference(track, here) {
        Some(landmarks) => landmarks,
        None => Double::ratio(1, 2),
    };
    lemma_cost_order(
        intersection_over_union(p, p),
        intersection_over_union(p, d),
        relative_distance(p, p),
        relative_distance(p, d),
        shape,
    );
    monotone::lemma_integer(1_000_000);
    vstd::arithmetic::power2::lemma_pow2_pos(1074);
    vstd::arithmetic::power2::lemma_pow2_adds(3, 1074);
    vstd::arithmetic::power2::lemma_pow2_adds(20, 1074);
    vstd::arithmetic::power2::lemma2_to64();
    lemma_powers();
    vstd::arithmetic::power2::lemma_pow2_adds(2, 1032);
    track.match_cost(here, now).lemma_order(track.match_cost(there, now));
}

/// A track's face is looked for where its motion has taken it: of detections of equal size and
/// shape, none costs less than one at just that place.
pub proof fn law_expected_place_costs_least(
    track: TrackView,
    here: FaceView,
    there: FaceView,
    now: u64,
)
    requires
        is_expected(track, now, here.bounding_box),
        is_plain(here.bounding_box),
        is_plain(there.bounding_box),
        there.bounding_box.width == here.bounding_box.width,
        there.bounding_box.height == here.bounding_box.height,
        shape_difference(track, here) == shape_difference(track, there),
    ensures
        track.match_cost(here, now).at_most(track.match_cost(there, now)),
        Double::ratio(1, 0x4000_0000).at_most(
            relative_distance(here.bounding_box, there.bounding_box),
        ) ==> track.match_cost(here, now).less(track.match_cost(there, now)),
{
    lemma_place_costs(track, here, there, now);
    lemma_apart(here.bounding_box, there.bounding_box);
    vstd::arithmetic::power2::lemma_pow2_pos(1034);
}

/// A distance that is not next to nothing.
proof fn lemma_apart(p: BoundingBox, d: BoundingBox)
    requires
        is_plain(p),
        is_plain(d),
    ensures
        Double::ratio(1, 0x4000_0000).at_most(relative_distance(p, d)) ==> pow2(1044)
            <= relative_distance(p, d).min(Double::integer(1)).value(),
{
    lemma_distance_sign(p, d);
    bounds::lemma_one();
    vstd::arithmetic::power2::lemma2_to64();
    vstd::arithmetic::power2::lemma_pow2_adds(30, 1044);
    bounds::lemma_share_above(1, 0x4000_0000, 1044);
    Double::law_ratios_are_ordered(1, 0x4000_0000, 1, 0x4000_0000);
    lemma_powers();
    vstd::arithmetic::power2::lemma_pow2_adds(12, 1032);
}

/// Nanoseconds are a thousand millionth of a second each, up to rounding; no time passes towards
/// the past.
pub proof fn law_seconds_between(earlier: u64, later: u64)
    ensures
        ({
            let time = seconds_between(earlier, later);
            let exact = if earlier < later {
                (later - earlier) * pow2(1074)
            } else {
                0
            };
            &&& time.is_finite()
            &&& 0x4_0000_0000_0000 * (1_000_000_000 * time.value() - exact) <= exact
            &&& 0x4_0000_0000_0000 * (exact - 1_000_000_000 * time.value()) <= exact
        }),
{
    let ns = (if earlier < later {
        later - earlier
    } else {
        0
    }) as u64;
    let whole = (ns / 1_000_000_000) as u64;
    let part = (ns % 1_000_000_000) as u64;
    let unit = pow2(1074) as int;
    lemma_powers();
    monotone::lemma_integer(whole);
    lemma_fraction(part);
    let x = Double::integer(whole);
    let y = Double::integer(part) / Double::integer(1_000_000_000);
    x.lemma_order(y);
    vstd::arithmetic::power2::lemma2_to64();
    vstd::arithmetic::power2::lemma2_to64_rest();
    vstd::arithmetic::power2::lemma_pow2_adds(35, 1074);
    let w = whole * unit;
    assert(w <= 0x8_0000_0000 * unit) by (nonlinear_arith)
        requires
            w == whole * unit,
            whole <= 0x8_0000_0000,
            unit >= 0,
    ;
    assert(0 <= w) by (nonlinear_arith)
        requires
            w == whole * unit,
            unit >= 0,
    ;
    assert(is_within(x, 1109));
    assert(is_within(y, 1109));
    bounds::lemma_sum_within(x, y, 1109);
    bounds::lemma_sum_error(x, y);
    let p = part * unit;
    assert(0 <= p) by (nonlinear_arith)
        requires
            p == part * unit,
            unit >= 0,
    ;
    assert(ns * unit == 1_000_000_000 * w + p) by (nonlinear_arith)
        requires
            ns == 1_000_000_000 * whole + part,
            w == whole * unit,
            p == part * unit,
    ;
}

/// A fraction of a second.
proof fn lemma_fraction(part: u64)
    requires
        part < 1_000_000_000,
    ensures
        ({
            let y = Double::integer(part) / Double::integer(1_000_000_000);
            let exact = part * pow2(1074);
            &&& y.is_finite()
            &&& 0 <= y.value() <= pow2(1074)
            &&& 0x8_0000_0000_0000 * (1_000_000_000 * y.value() - exact) <= exact
            &&& 0x8_0000_0000_0000 * (exact - 1_000_000_000 * y.value()) <= exact
        }),
{
    lemma_powers();
    let unit = pow2(1074) as int;
    let b = Double::integer(1_000_000_000);
    let a = Double::integer(part);
    monotone::lemma_integer(1_000_000_000);
    monotone::lemma_integer(part);
    let y = a / b;
    a.lemma_order(b);
    if part == 0 {
        assert(part * unit == 0) by (nonlinear_arith)
            requires
                part == 0,
        ;
        monotone::lemma_zero_over(a, b);
    } else {
        reveal(Double::spec_div);
        let d = 1_000_000_000 * unit;
        let n = part * unit * unit;
        let m = part * unit;
        assert(n == m * unit);
        assert(n <= unit * d && n > 0) by (nonlinear_arith)
            requires
                n == part * unit * unit,
                d == 1_000_000_000 * unit,
                0 < part < 1_000_000_000,
                unit > 0,
        ;
        bounds::lemma_nearest_within(false, n, d, 1074);
        bounds::lemma_nearest_signed(false, n, d);
        vstd::arithmetic::power2::lemma2_to64_rest();
        vstd::arithmetic::power2::lemma_pow2_adds(30, 52);
        vstd::arithmetic::power2::lemma_pow2_strictly_increases(82, 1074);
        reveal(Double::nearest);
        Double::lemma_format();
        rounding::lemma_nearest_exists(n, d, 52, patterns::infinity(52, 2047));
        let k = patterns::rounded(n, d, 52, 2047);
        bounds::lemma_signed(false, k);
        bounds::lemma_rounding_error(n, d);
        let q = y.magnitude();
        assert(pow2(30) == 0x4000_0000) by {
            vstd::arithmetic::power2::lemma2_to64();
        }
        assert(unit >= 0x4000_0000 * 0x10_0000_0000_0000int);
        assert(m >= unit) by (nonlinear_arith)
            requires
                m == part * unit,
                part >= 1,
                unit > 0,
        ;
        assert(pow2(52) * d <= n) by (nonlinear_arith)
            requires
                pow2(52) == 0x10_0000_0000_0000,
                d == 1_000_000_000 * unit,
                n == m * unit,
                m >= 1_000_000_000 * 0x10_0000_0000_0000,
                unit > 0,
        ;
        let z = 1_000_000_000 * q;
        assert(q * d == z * unit) by (nonlinear_arith)
            requires
                d == 1_000_000_000 * unit,
                z == 1_000_000_000 * q,
        ;
        assert(0x8_0000_0000_0000 * (z - m) <= m && 0x8_0000_0000_0000 * (m - z) <= m)
            by (nonlinear_arith)
            requires
                0x20_0000_0000_0000 * (z * unit - m * unit) <= 2 * (m * unit),
                0x20_0000_0000_0000 * (m * unit - z * unit) <= 2 * (m * unit),
                unit > 0,
        ;
    }
}

/// The total of four rows.
proof fn lemma_four_rows(v: Seq<Seq<int>>, columns: Seq<usize>)
    ensures
        assignment::total_cost(v, columns, 4) == v[0][columns[0] as int] + v[1][columns[1] as int]
            + v[2][columns[2] as int] + v[3][columns[3] as int],
{
    reveal_with_fuel(assignment::total_cost, 5);
}

/// Two faces and two detections: each face is matched with its own where that costs less than to
/// exchange them, and less than to leave them.
proof fn lemma_own_columns(v: Seq<Seq<int>>, columns: Seq<usize>, price: int, least: int)
    requires
        assignment::is_permutation(columns, 4),
        0 < least,
        v[0][0] + least <= v[0][1],
        v[1][1] <= v[1][0],
        v[0][0] + least < 2 * price,
        v[1][1] + least < 2 * price,
        v[0][2] >= price,
        v[0][3] >= price,
        v[1][2] >= price,
        v[1][3] >= price,
        v[2][0] >= price,
        v[2][1] >= price,
        v[3][0] >= price,
        v[3][1] >= price,
        v[2][2] == 0,
        v[2][3] == 0,
        v[3][2] == 0,
        v[3][3] == 0,
        price >= 0,
        assignment::total_cost(v, columns, 4) < assignment::total_cost(
            v,
            seq![0usize, 1usize, 2usize, 3usize],
            4,
        ) + least,
    ensures
        columns[0] == 0,
        columns[1] == 1,
{
    let own = seq![0usize, 1usize, 2usize, 3usize];
    lemma_four_rows(v, columns);
    lemma_four_rows(v, own);
    let (a, b, c, d) = (columns[0], columns[1], columns[2], columns[3]);
    assert(a < 4 && b < 4 && c < 4 && d < 4);
    assert(a != b && a != c && a != d && b != c && b != d && c != d);
    assert(v[0][own[0] as int] == v[0][0] && v[1][own[1] as int] == v[1][1] && v[2][own[2] as int]
        == v[2][2] && v[3][own[3] as int] == v[3][3]);
    let (p, q, r, s) = (v[0][a as int], v[1][b as int], v[2][c as int], v[3][d as int]);
    assert(r >= 0 && s >= 0);
    if a == 0 {
        if b != 1 {
            assert(c == 1 || d == 1);
            assert(q >= price && r + s >= price);
        }
    } else if a == 1 {
        if b != 0 {
            assert(c == 0 || d == 0);
            assert(q >= price && r + s >= price);
        }
    } else {
        assert(p >= price);
        if b == 0 {
            assert(c == 1 || d == 1);
            assert(r + s >= price);
        } else if b == 1 {
            assert(c == 0 || d == 0);
            assert(r + s >= price);
        } else {
            assert(q >= price);
            assert(r >= price && s >= price);
        }
    }
}

/// The columns of two faces and two detections.
#[verifier::rlimit(40)]
proof fn lemma_two_and_two(
    costs: Seq<Seq<Double>>,
    columns: Seq<usize>,
    c00: Double,
    c01: Double,
    c10: Double,
    c11: Double,
)
    requires
        weight::is_least(costs, columns),
        costs.len() == 4,
        costs[0] == seq![c00, c01, unmatched_cost(), invalid_match_cost()],
        costs[1] == seq![c10, c11, invalid_match_cost(), unmatched_cost()],
        costs[2] == seq![
            unmatched_cost(),
            invalid_match_cost(),
            Double { bits: 0 },
            Double { bits: 0 },
        ],
        costs[3] == seq![
            invalid_match_cost(),
            unmatched_cost(),
            Double { bits: 0 },
            Double { bits: 0 },
        ],
        is_within(c00, 1094),
        is_within(c01, 1094),
        is_within(c10, 1094),
        is_within(c11, 1094),
        c00.value() + pow2(1034) <= c01.value(),
        c11.value() <= c10.value(),
        c00.value() <= 10 * bounds::eighth(),
        c11.value() <= 10 * bounds::eighth(),
    ensures
        columns[0] == 0,
        columns[1] == 1,
{
    let v = weight::values(costs);
    let price = unmatched_cost();
    let most = invalid_match_cost();
    let zero = Double { bits: 0 };
    zero.lemma_order(zero);
    bounds::lemma_ratio_above(9, 10, 7);
    bounds::lemma_ratio_below(9, 10, 8);
    monotone::lemma_integer(1_000_000);
    vstd::arithmetic::power2::lemma_pow2_pos(1074);
    vstd::arithmetic::power2::lemma_pow2_pos(1034);
    vstd::arithmetic::power2::lemma_pow2_adds(3, 1071);
    vstd::arithmetic::power2::lemma_pow2_adds(20, 1074);
    vstd::arithmetic::power2::lemma_pow2_adds(60, 1034);
    vstd::arithmetic::power2::lemma_pow2_adds(40, 1034);
    vstd::arithmetic::power2::lemma2_to64();
    vstd::arithmetic::power2::lemma2_to64_rest();
    price.lemma_order(most);
    assert(is_within(price, 1094) && is_within(most, 1094) && is_within(zero, 1094));
    assert forall|i: int, j: int| 0 <= i < 4 && 0 <= j < 4 implies is_within(
        #[trigger] costs[i][j],
        1094,
    ) by {
        assert(i == 0 || i == 1 || i == 2 || i == 3);
        assert(j == 0 || j == 1 || j == 2 || j == 3);
    }
    let top = weight::largest(costs);
    weight::lemma_greatest(costs, 4);
    assert(top.magnitude() <= pow2(1094)) by {
        top.lemma_order(zero);
        if top.pattern() != 0 {
            let (i, j) = choose|i: int, j: int|
                0 <= i < 4 && 0 <= j < costs[i].len() && (#[trigger] costs[i][j]).is_finite()
                    && costs[i][j].pattern() == top.pattern();
            assert(is_within(costs[i][j], 1094));
            top.lemma_order(costs[i][j]);
        }
    }
    let own = seq![0usize, 1usize, 2usize, 3usize];
    assert(assignment::is_permutation(own, 4));
    assert(weight::are_finite(costs)) by {
        assert forall|i: int, j: int|
            0 <= i < costs.len() && 0 <= j < costs[i].len() implies (
        #[trigger] costs[i][j]).is_finite() by {
            assert(is_within(costs[i][j], 1094));
        }
    }
    let (x, y) = (assignment::total_cost(v, columns, 4), assignment::total_cost(v, own, 4));
    let power = pow2(121) as int;
    let least = pow2(1034) as int;
    vstd::arithmetic::power2::lemma_pow2_strictly_increases(63, 121);
    assert(x < y + least) by (nonlinear_arith)
        requires
            x * power <= y * power + 4 * top.magnitude(),
            top.magnitude() <= 0x1000_0000_0000_0000 * least,
            power > 0x4000_0000_0000_0000,
            least > 0,
    ;
    assert(v[0] =~= seq![c00.value(), c01.value(), price.value(), most.value()]);
    assert(v[1] =~= seq![c10.value(), c11.value(), most.value(), price.value()]);
    assert(v[2] =~= seq![price.value(), most.value(), 0, 0]);
    assert(v[3] =~= seq![most.value(), price.value(), 0, 0]);
    lemma_own_columns(v, columns, price.value(), least);
}

/// Faces whose ways cross keep their numbers: of two faces of equal size that are followed, and
/// two detections where the motion of each has taken it, each detection is taken for its own face
/// and returned under its number, unless the two places are next to one.
pub proof fn law_crossing_faces_keep_their_numbers(update: Update)
    requires
        update.is_optimal(),
        update.tracker.tracks.len() == 2,
        update.detections.len() == 2,
        ({
            let (first, second) = (update.tracker.tracks[0], update.tracker.tracks[1]);
            let (here, there) = (update.detections[0], update.detections[1]);
            &&& is_expected(first, update.now, here.bounding_box)
            &&& is_expected(second, update.now, there.bounding_box)
            &&& is_plain(here.bounding_box)
            &&& is_plain(there.bounding_box)
            &&& there.bounding_box.width == here.bounding_box.width
            &&& there.bounding_box.height == here.bounding_box.height
            &&& shape_difference(first, here) == shape_difference(first, there)
            &&& shape_difference(second, here) == shape_difference(second, there)
            &&& Double::ratio(1, 0x4000_0000).at_most(
                relative_distance(here.bounding_box, there.bounding_box),
            )
        }),
    ensures
        update.paired(0, 0),
        update.paired(1, 1),
        update.faces()[0].track_id == update.tracker.tracks[0].id,
        update.faces()[1].track_id == update.tracker.tracks[1].id,
{
    let (first, second) = (update.tracker.tracks[0], update.tracker.tracks[1]);
    let (here, there) = (update.detections[0], update.detections[1]);
    let now = update.now;
    lemma_place_costs(first, here, there, now);
    lemma_place_costs(second, there, here, now);
    lemma_apart(here.bounding_box, there.bounding_box);
    tracker::lemma_near_cost(first, here, now);
    tracker::lemma_near_cost(second, there, now);
    let costs = update.costs();
    let price = unmatched_cost();
    let most = invalid_match_cost();
    let zero = Double { bits: 0 };
    bounds::lemma_zero();
    let (c00, c01) = (first.match_cost(here, now), first.match_cost(there, now));
    let (c10, c11) = (second.match_cost(here, now), second.match_cost(there, now));
    assert(costs.len() == 4);
    assert(costs[0] =~= seq![c00, c01, price, most]);
    assert(costs[1] =~= seq![c10, c11, most, price]);
    assert(costs[2] =~= seq![price, most, zero, zero]);
    assert(costs[3] =~= seq![most, price, zero, zero]);
    bounds::lemma_within_wider(c00, 1077, 1094);
    bounds::lemma_within_wider(c11, 1077, 1094);
    lemma_two_and_two(costs, update.columns, c00, c01, c10, c11);
    assert(update.cost(0, 0) == c00 && update.cost(1, 1) == c11);
    update.law_matched_keeps_number(0, 0);
    update.law_matched_keeps_number(1, 1);
}

/// No box of equal size overlaps more with a box than one at its place, and none that does not
/// reach it overlaps with it at all.
pub proof fn law_overlap_is_greatest_in_place(p: BoundingBox, d: BoundingBox)
    requires
        is_plain(p),
        is_plain(d),
    ensures
        d.width == p.width && d.height == p.height ==> intersection_over_union(p, d).at_most(
            intersection_over_union(p, p),
        ),
        (p.x + p.width).at_most(d.x) || (d.x + d.width).at_most(p.x) || (p.y + p.height).at_most(d.y)
            || (d.y + d.height).at_most(p.y) ==> intersection_over_union(p, d) == Double::integer(0),
{
    lemma_powers();
    if d.width == p.width && d.height == p.height {
        lemma_overlap_order(p, d);
        law_box_overlaps_itself(p);
    }
    bounds::lemma_zero();
    let zero = Double { bits: 0 };
    zero.lemma_order(zero);
    lemma_nothing_shared(p.x, p.width, d.x, d.width);
    lemma_nothing_shared(p.y, p.height, d.y, d.height);
}

/// Sides that do not meet share nothing.
proof fn lemma_nothing_shared(a: Double, w: Double, b: Double, v: Double)
    requires
        is_place(a),
        is_place(b),
        is_length(w),
        is_length(v),
    ensures
        (a + w).at_most(b) || (b + v).at_most(a) ==> ((a + w).min(b + v) - a.max(b)).at_most(
            Double::integer(0),
        ),
{
    lemma_powers();
    let zero = Double { bits: 0 };
    bounds::lemma_zero();
    zero.lemma_order(zero);
    a.lemma_order(w);
    b.lemma_order(v);
    bounds::lemma_sum_within(a, w, 1084);
    bounds::lemma_sum_within(b, v, 1084);
    let end = (a + w).min(b + v);
    let begin = a.max(b);
    if (a + w).at_most(b) || (b + v).at_most(a) {
        assert(end.value() <= begin.value());
        monotone::lemma_difference_order(end, begin, zero, zero);
        bounds::lemma_signed(true, 0);
        zero.lemma_order(zero.negated());
        bounds::lemma_plus_zero(zero, zero.negated());
    }
}

/// A detection that shares less than a twentieth with where a face is expected, and is further
/// away than five quarters of their diagonal, is not taken for it.
pub proof fn law_far_detection_is_not_matched(update: Update, i: int, d: int, place: BoundingBox)
    requires
        0 <= i < update.tracker.tracks.len(),
        0 <= d < update.detections.len(),
        is_expected(update.tracker.tracks[i], update.now, place),
        intersection_over_union(place, update.detections[d].bounding_box).less(
            Double::ratio(5, 100),
        ),
        Double::ratio(125, 100).less(
            relative_distance(place, update.detections[d].bounding_box),
        ),
    ensures
        !update.paired(i, d),
{
    let track = update.tracker.tracks[i];
    assert(track.predicted_bounds(update.now) == place);
    assert(update.cost(i, d) == invalid_match_cost());
    monotone::lemma_integer(1_000_000);
    monotone::lemma_integer(500_000);
    vstd::arithmetic::power2::lemma_pow2_pos(1074);
}

/// A number of tenths of a value, and its error.
proof fn lemma_tenths(n: u64, x: Double)
    requires
        0 < n <= 10,
        x.is_finite(),
        x.magnitude() <= 2 * pow2(1074),
    ensures
        ({
            let p = Double::ratio(n, 10) * x;
            &&& p.is_finite()
            &&& p.magnitude() <= x.magnitude()
            &&& 0x1000_0000_0000 * size(10 * p.value() - n * x.value()) <= pow2(1074)
        }),
{
    let unit = pow2(1074) as int;
    vstd::arithmetic::power2::lemma_pow2_pos(1074);
    vstd::arithmetic::power2::lemma2_to64_rest();
    vstd::arithmetic::power2::lemma_pow2_strictly_increases(63, 1074);
    relief::lemma_ratio_error(n, 10);
    let a = Double::ratio(n, 10);
    x.lemma_order(a);
    placing::lemma_factors_commute(a, x);
    monotone::lemma_share_error(x, a);
    let p = (a * x).value();
    let (r, y) = (a.value(), x.value());
    let e = 10 * r - n * unit;
    let g = p * unit - y * r;
    let far = 10 * p - n * y;
    assert(far * unit == 10 * g + y * e) by (nonlinear_arith)
        requires
            far == 10 * p - n * y,
            g == p * unit - y * r,
            e == 10 * r - n * unit,
    ;
    let m = x.magnitude();
    let uu = unit * unit;
    assert(m * unit <= 2 * uu) by (nonlinear_arith)
        requires
            0 <= m <= 2 * unit,
            uu == unit * unit,
            unit > 0,
    ;
    let big = 0x8_0000_0000_0000int;
    let nu = n * unit;
    assert(nu <= 10 * unit) by (nonlinear_arith)
        requires
            nu == n * unit,
            n <= 10,
            unit > 0,
    ;
    assert(size(y * e) == m * size(e)) by (nonlinear_arith)
        requires
            y == m || y == -m,
            m >= 0,
    ;
    assert(big * (m * size(e)) <= 20 * uu) by (nonlinear_arith)
        requires
            big * size(e) <= 10 * unit,
            0 <= m <= 2 * unit,
            uu == unit * unit,
            unit > 0,
    ;
    assert(0x10_0000_0000_0000 * unit <= uu) by (nonlinear_arith)
        requires
            uu == unit * unit,
            unit >= 0x10_0000_0000_0000,
    ;
    assert(size(far * unit) == size(far) * unit) by (nonlinear_arith)
        requires
            unit > 0,
    ;
    assert(0x1000_0000_0000 * (size(far) * unit) <= uu);
    assert(0x1000_0000_0000 * size(far) <= unit) by (nonlinear_arith)
        requires
            0x1000_0000_0000 * (size(far) * unit) <= unit * unit,
            unit > 0,
    ;
}

/// What a match costs: six tenths of what two boxes do not share, three tenths of how far apart
/// they are and one tenth of how their faces differ in shape, the latter two counting one at most,
/// up to rounding.
#[verifier::rlimit(40)]
pub proof fn law_cost_weighs_its_parts(overlap: Double, distance: Double, shape: Double)
    requires
        overlap.is_finite(),
        0 <= overlap.value() <= 2 * pow2(1074),
        distance.nan() || !distance.negative(),
        shape.nan() || !shape.negative(),
    ensures
        ({
            let one = Double::integer(1);
            let cost = weighted_cost(overlap, distance, shape);
            let exact = 6 * (pow2(1074) - overlap.value()) + 3 * distance.min(one).value()
                + shape.min(one).value();
            cost.is_finite() && 0x100_0000_0000 * size(10 * cost.value() - exact) <= pow2(1074)
        }),
{
    let one = Double::integer(1);
    let unit = pow2(1074) as int;
    vstd::arithmetic::power2::lemma_pow2_pos(1074);
    vstd::arithmetic::power2::lemma2_to64();
    vstd::arithmetic::power2::lemma_pow2_adds(3, 1074);
    vstd::arithmetic::power2::lemma_pow2_adds(2, 1074);
    lemma_powers();
    bounds::lemma_one();
    overlap.lemma_order(one);
    let rest = one - overlap;
    assert(is_within(one, 1076) && is_within(overlap, 1076));
    bounds::lemma_sum_within(one, overlap, 1076);
    monotone::lemma_difference_error(one, overlap);
    rest.lemma_order(one);
    assert(rest.magnitude() <= 2 * unit);
    lemma_cut(distance);
    lemma_cut(shape);
    let (d, l) = (distance.min(one), shape.min(one));
    d.lemma_order(l);
    lemma_tenths(6, rest);
    lemma_tenths(3, d);
    lemma_tenths(1, l);
    let (a, b, c) = (Double::ratio(6, 10) * rest, Double::ratio(3, 10) * d, Double::ratio(1, 10) * l);
    a.lemma_order(b);
    c.lemma_order(a);
    assert(is_within(a, 1076) && is_within(b, 1076) && is_within(c, 1077));
    bounds::lemma_sum_within(a, b, 1076);
    bounds::lemma_sum_error(a, b);
    let s = a + b;
    s.lemma_order(c);
    bounds::lemma_sum_within(s, c, 1077);
    bounds::lemma_sum_error(s, c);
    lemma_weighed(
        unit,
        overlap.value(),
        rest.value(),
        d.value(),
        l.value(),
        a.value(),
        b.value(),
        c.value(),
        s.value(),
        (s + c).value(),
    );
}

/// The errors of a cost.
proof fn lemma_weighed(
    u: int,
    o: int,
    rest: int,
    d: int,
    l: int,
    a: int,
    b: int,
    c: int,
    s: int,
    t: int,
)
    requires
        u > 0,
        0 <= o <= 2 * u,
        0 <= d <= u,
        0 <= l <= u,
        is_rounded(rest, u - o),
        0x1000_0000_0000 * size(10 * a - 6 * rest) <= u,
        0x1000_0000_0000 * size(10 * b - 3 * d) <= u,
        0x1000_0000_0000 * size(10 * c - l) <= u,
        is_rounded(s, a + b),
        is_rounded(t, s + c),
    ensures
        0x100_0000_0000 * size(10 * t - (6 * (u - o) + 3 * d + l)) <= u,
{
    let (e1, e2, e3, e4) = (rest - (u - o), 10 * a - 6 * rest, 10 * b - 3 * d, 10 * c - l);
    lemma_rounded_bound(rest, u - o, u);
    lemma_between(e2, u, 0x1000_0000_0000);
    lemma_between(e3, u, 0x1000_0000_0000);
    lemma_between(e4, u, 0x1000_0000_0000);
    assert(-2 * u <= a <= 2 * u && -u <= b <= u && -u <= c <= u);
    lemma_rounded_bound(s, a + b, 4 * u);
    lemma_rounded_bound(t, s + c, 8 * u);
    let (e5, e6) = (s - (a + b), t - (s + c));
    lemma_errors(u, e1, e2, e3, e4, e5, e6);
    assert(10 * t - (6 * (u - o) + 3 * d + l) == 10 * e6 + 10 * e5 + e4 + e3 + e2 + 6 * e1);
}

/// A rounding is no more than its share of a bound.
proof fn lemma_rounded_bound(r: int, n: int, m: int)
    requires
        is_rounded(r, n),
        -m <= n <= m,
    ensures
        -m <= 0x20_0000_0000_0000 * (r - n) <= m,
{
}

/// A size that is bounded.
proof fn lemma_between(n: int, m: int, k: int)
    requires
        k * size(n) <= m,
        k > 0,
    ensures
        -m <= k * n <= m,
{
    assert(k * (-n) == -(k * n)) by (nonlinear_arith);
}

/// All errors together.
proof fn lemma_errors(u: int, e1: int, e2: int, e3: int, e4: int, e5: int, e6: int)
    requires
        u > 0,
        -u <= 0x20_0000_0000_0000 * e1 <= u,
        -u <= 0x1000_0000_0000 * e2 <= u,
        -u <= 0x1000_0000_0000 * e3 <= u,
        -u <= 0x1000_0000_0000 * e4 <= u,
        -4 * u <= 0x20_0000_0000_0000 * e5 <= 4 * u,
        -8 * u <= 0x20_0000_0000_0000 * e6 <= 8 * u,
    ensures
        0x100_0000_0000 * size(10 * e6 + 10 * e5 + e4 + e3 + e2 + 6 * e1) <= u,
{
}

/// No point is overlooked: how faces differ in shape is no less than what any of their points says,
/// over the number of points and the root of two.
pub proof fn law_shape_minds_every_point(
    previous: Seq<Point>,
    previous_bounds: BoundingBox,
    current: Seq<Point>,
    current_bounds: BoundingBox,
    k: int,
    i: int,
)
    requires
        0 <= i < k <= previous.len(),
        k <= current.len(),
        k <= 0x10_0000,
        forall|j: int|
            0 <= j < k ==> is_within(
                #[trigger] motion::normalized_point(previous[j], previous_bounds).distance(
                    motion::normalized_point(current[j], current_bounds),
                ),
                1574,
            ),
    ensures
        motion::normalized_point(previous[i], previous_bounds).distance(
            motion::normalized_point(current[i], current_bounds),
        ).at_most(motion::shape_sum(previous, previous_bounds, current, current_bounds, k)),
{
    lemma_shape_sum_grows(previous, previous_bounds, current, current_bounds, k, i);
}

proof fn lemma_shape_sum_grows(
    previous: Seq<Point>,
    previous_bounds: BoundingBox,
    current: Seq<Point>,
    current_bounds: BoundingBox,
    k: int,
    i: int,
)
    requires
        -1 <= i < k <= previous.len() || (k == 0 && i == -1),
        0 <= k <= current.len(),
        k <= 0x10_0000,
        forall|j: int|
            0 <= j < k ==> is_within(
                #[trigger] motion::normalized_point(previous[j], previous_bounds).distance(
                    motion::normalized_point(current[j], current_bounds),
                ),
                1574,
            ),
    ensures
        ({
            let sum = motion::shape_sum(previous, previous_bounds, current, current_bounds, k);
            &&& sum.is_finite()
            &&& 0 <= sum.value() <= 2 * k * pow2(1574)
            &&& i >= 0 ==> motion::normalized_point(previous[i], previous_bounds).distance(
                motion::normalized_point(current[i], current_bounds),
            ).value() <= sum.value()
        }),
    decreases k,
{
    bounds::lemma_zero();
    let zero = Double { bits: 0 };
    zero.lemma_order(zero);
    vstd::arithmetic::power2::lemma_pow2_pos(1574);
    if k > 0 {
        let before = motion::shape_sum(previous, previous_bounds, current, current_bounds, k - 1);
        lemma_shape_sum_grows(
            previous,
            previous_bounds,
            current,
            current_bounds,
            k - 1,
            if i < k - 1 {
                i
            } else {
                -1
            },
        );
        let a = motion::normalized_point(previous[k - 1], previous_bounds);
        let b = motion::normalized_point(current[k - 1], current_bounds);
        let last = a.distance(b);
        assert(is_within(last, 1574));
        lemma_hypot_sign(a.x - b.x, a.y - b.y);
        last.lemma_order(before);
        let big = pow2(1574) as int;
        vstd::arithmetic::power2::lemma2_to64();
        vstd::arithmetic::power2::lemma_pow2_adds(22, 1574);
        assert(2 * (k - 1) * big + 2 * big == 2 * k * big && 2 * (k - 1) * big <= 0x20_0000 * big)
            by (nonlinear_arith)
            requires
                0 < k <= 0x10_0000,
                big > 0,
        ;
        vstd::arithmetic::power2::lemma_pow2_strictly_increases(1574, 1596);
        bounds::lemma_sum_within(before, last, 1596);
        bounds::lemma_sum_error(before, last);
        lemma_powers();
        monotone::lemma_sum_order(before, zero, before, last);
        monotone::lemma_sum_order(zero, last, before, last);
        bounds::lemma_plus_zero(before, zero);
        lemma_zero_first(last);
        // each sum is no more than twice what was added
        lemma_sum_room(before, last, k, big);
    }
}

proof fn lemma_zero_first(x: Double)
    requires
        x.is_finite(),
    ensures
        (Double { bits: 0 } + x).value() == x.value(),
{
    let zero = Double { bits: 0 };
    bounds::lemma_plus_zero(x, zero);
    reveal(Double::spec_add);
    zero.lemma_order(x);
    bounds::lemma_signed(x.negative() && zero.negative(), 0);
    let y = Double::signed(x.negative() && zero.negative(), 0);
    y.lemma_order(y);
}

/// A sum stays within its room.
proof fn lemma_sum_room(before: Double, last: Double, k: int, big: int)
    requires
        before.is_finite(),
        last.is_finite(),
        (before + last).is_finite(),
        0 <= before.value() <= 2 * (k - 1) * big,
        0 <= last.value() <= big,
        0 < k <= 0x10_0000,
        big > 0,
        2 * (k - 1) * big + 2 * big == 2 * k * big,
        2 * (k - 1) * big <= 0x20_0000 * big,
    ensures
        (before + last).value() <= 2 * k * big,
{
    lemma_powers();
    bounds::lemma_sum_error(before, last);
    let exact = before.value() + last.value();
    let sum = (before + last).value();
    assert(0x20_0000_0000_0000 * (sum - exact) <= exact);
    assert(exact <= 0x30_0000 * big);
}

} // verus!
