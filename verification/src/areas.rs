//! What boxes share, in whole numbers.

use vstd::prelude::*;
use vstd::arithmetic::power2::pow2;
use crate::bounds;
use crate::double::Double;
use crate::model::BoundingBox;
use crate::motion::{intersection_over_union, shared_height, shared_width};
use crate::patterns;
use crate::prediction;
use crate::rounding;
use crate::scaling;

verus! {

/// A value is the number `n * 2^-e`.
pub open spec fn is_whole(x: Double, n: int, e: nat) -> bool {
    x.is_finite() && x.value() == n * pow2((1074 - e) as nat)
}

/// There is a value for each number that is not large.
proof fn lemma_there_is(n: int, e: nat) -> (x: Double)
    requires
        -0x20_0000_0000_0000 <= n <= 0x20_0000_0000_0000,
        e <= 1074,
    ensures
        is_whole(x, n, e),
        x.negative() == (n < 0),
{
    patterns::lemma_small_powers(52);
    vstd::arithmetic::power2::lemma_pow2_unfold(53);
    let u = pow2((1074 - e) as nat) as int;
    let c = if n < 0 {
        -n
    } else {
        n
    };
    let p = scaling::lemma_representable(c, (1074 - e) as nat);
    bounds::lemma_signed(n < 0, p);
    assert(-n * u == -(n * u)) by (nonlinear_arith);
    Double::signed(n < 0, p)
}

proof fn lemma_sum(x: Double, a: int, y: Double, b: int, e: nat)
    requires
        is_whole(x, a, e),
        is_whole(y, b, e),
        -0x20_0000_0000_0000 <= a + b <= 0x20_0000_0000_0000,
        e <= 1074,
    ensures
        is_whole(x + y, a + b, e),
{
    let u = pow2((1074 - e) as nat) as int;
    let z = lemma_there_is(a + b, e);
    assert((a + b) * u == a * u + b * u) by (nonlinear_arith);
    bounds::lemma_sum_between(x, y, z, z);
}

proof fn lemma_difference(x: Double, a: int, y: Double, b: int, e: nat)
    requires
        is_whole(x, a, e),
        is_whole(y, b, e),
        -0x20_0000_0000_0000 <= a - b <= 0x20_0000_0000_0000,
        e <= 1074,
    ensures
        is_whole(x - y, a - b, e),
{
    let u = pow2((1074 - e) as nat) as int;
    bounds::lemma_signed(!y.negative(), y.pattern() as int);
    y.lemma_order(y.negated());
    assert(-b * u == -(b * u)) by (nonlinear_arith);
    lemma_sum(x, a, y.negated(), -b, e);
}

/// The product of two numbers that are not negative.
proof fn lemma_product(x: Double, a: int, e: nat, y: Double, b: int, f: nat)
    requires
        is_whole(x, a, e),
        is_whole(y, b, f),
        e + f <= 1074,
        0 < a,
        0 < b,
        a * b <= 0x20_0000_0000_0000,
    ensures
        is_whole(x * y, a * b, e + f),
        !(x * y).negative(),
{
    let unit = pow2(1074) as int;
    let (u, v) = (pow2((1074 - e) as nat) as int, pow2((1074 - f) as nat) as int);
    let w = pow2((1074 - (e + f)) as nat) as int;
    vstd::arithmetic::power2::lemma_pow2_pos(1074);
    vstd::arithmetic::power2::lemma_pow2_pos((1074 - e) as nat);
    vstd::arithmetic::power2::lemma_pow2_pos((1074 - f) as nat);
    vstd::arithmetic::power2::lemma_pow2_adds((1074 - e) as nat, (1074 - f) as nat);
    vstd::arithmetic::power2::lemma_pow2_adds((1074 - (e + f)) as nat, 1074);
    assert(u * v == w * unit);
    x.lemma_order(y);
    assert(a * u > 0 && b * v > 0 && a * b > 0) by (nonlinear_arith)
        requires
            a > 0,
            b > 0,
            u > 0,
            v > 0,
    ;
    assert((a * u) * (b * v) == a * b * (u * v)) by (nonlinear_arith);
    assert(a * b * (w * unit) == a * b * w * unit) by (nonlinear_arith);
    let z = lemma_there_is(a * b, e + f);
    z.lemma_order(x);
    let n = a * b * w;
    assert(z.magnitude() == n);
    let k = z.pattern() as int;
    bounds::lemma_exact(k);
    Double::lemma_format();
    assert(n == rounding::mag(k, 52)) by {
        reveal(Double::magnitude);
    }
    let inf = patterns::infinity(52, 2047);
    assert(n * unit * 1 == n * unit);
    rounding::law_rounding_keeps_order(n * unit, unit, n, 1, 52, inf);
    rounding::law_rounding_keeps_order(n, 1, n * unit, unit, 52, inf);
    reveal(Double::spec_mul);
    reveal(Double::nearest);
    bounds::lemma_signed(false, k);
}

/// The lesser of two numbers.
pub open spec fn lesser(a: int, b: int) -> int {
    if a < b {
        a
    } else {
        b
    }
}

/// The greater of two numbers.
pub open spec fn greater(a: int, b: int) -> int {
    if a < b {
        b
    } else {
        a
    }
}

/// A box at whole numbers of `2^-e`.
pub open spec fn is_box(bounds: BoundingBox, x: int, y: int, w: int, h: int, e: nat) -> bool {
    &&& is_whole(bounds.x, x, e) && -0x10_0000 <= x <= 0x10_0000
    &&& is_whole(bounds.y, y, e) && -0x10_0000 <= y <= 0x10_0000
    &&& is_whole(bounds.width, w, e) && 0 < w <= 0x10_0000
    &&& is_whole(bounds.height, h, e) && 0 < h <= 0x10_0000
}

/// What two boxes share along an axis.
pub open spec fn shared_along(a: int, w: int, b: int, v: int) -> int {
    lesser(a + w, b + v) - greater(a, b)
}

proof fn lemma_shared_along(
    p: Double,
    a: int,
    q: Double,
    w: int,
    r: Double,
    b: int,
    s: Double,
    v: int,
    e: nat,
)
    requires
        is_whole(p, a, e) && is_whole(q, w, e) && is_whole(r, b, e) && is_whole(s, v, e),
        -0x10_0000 <= a <= 0x10_0000,
        -0x10_0000 <= b <= 0x10_0000,
        0 < w <= 0x10_0000,
        0 < v <= 0x10_0000,
        e <= 20,
    ensures
        is_whole((p + q).min(r + s) - p.max(r), shared_along(a, w, b, v), e),
{
    lemma_sum(p, a, q, w, e);
    lemma_sum(r, b, s, v, e);
    let u = pow2((1074 - e) as nat) as int;
    vstd::arithmetic::power2::lemma_pow2_pos((1074 - e) as nat);
    lemma_keeps_order(a + w, b + v, u);
    lemma_keeps_order(b + v, a + w, u);
    lemma_keeps_order(a, b, u);
    lemma_keeps_order(b, a, u);
    lemma_difference(
        (p + q).min(r + s),
        lesser(a + w, b + v),
        p.max(r),
        greater(a, b),
        e,
    );
}

proof fn lemma_keeps_order(a: int, b: int, u: int)
    requires
        u > 0,
    ensures
        a < b <==> a * u < b * u,
{
    assert(a < b <==> a * u < b * u) by (nonlinear_arith)
        requires
            u > 0,
    ;
}

/// The overlap of two boxes is the area that they share over the area that they cover together:
/// exactly so, but for one rounding, where they are at whole numbers of a power of two. Boxes that
/// share nothing do not overlap.
#[verifier::rlimit(40)]
pub proof fn law_overlap_is_shared_area(
    left: BoundingBox,
    right: BoundingBox,
    x: int,
    y: int,
    w: int,
    h: int,
    x2: int,
    y2: int,
    w2: int,
    h2: int,
    e: nat,
)
    requires
        is_box(left, x, y, w, h, e),
        is_box(right, x2, y2, w2, h2, e),
        e <= 20,
    ensures
        ({
            let (across, up) = (shared_along(x, w, x2, w2), shared_along(y, h, y2, h2));
            let shared = across * up;
            let covered = w * h + w2 * h2 - shared;
            intersection_over_union(left, right) == if across > 0 && up > 0 {
                Double::ratio(shared as u64, covered as u64)
            } else {
                Double::integer(0)
            }
        }),
{
    let (across, up) = (shared_along(x, w, x2, w2), shared_along(y, h, y2, h2));
    lemma_shared_along(left.x, x, left.width, w, right.x, x2, right.width, w2, e);
    lemma_shared_along(left.y, y, left.height, h, right.y, y2, right.height, h2, e);
    let (a, b) = (shared_width(left, right), shared_height(left, right));
    let u = pow2((1074 - e) as nat) as int;
    vstd::arithmetic::power2::lemma_pow2_pos((1074 - e) as nat);
    let zero = Double { bits: 0 };
    bounds::lemma_zero();
    zero.lemma_order(zero);
    lemma_keeps_order(0, across, u);
    lemma_keeps_order(0, up, u);
    assert(0 * u == 0);
    if across > 0 && up > 0 {
        let shared = across * up;
        let (s, t) = (w * h, w2 * h2);
        assert(0 < shared <= s && shared <= t && s <= 0x100_0000_0000 && t <= 0x100_0000_0000)
            by (nonlinear_arith)
            requires
                0 < across <= w,
                0 < across <= w2,
                0 < up <= h,
                0 < up <= h2,
                w <= 0x10_0000,
                h <= 0x10_0000,
                w2 <= 0x10_0000,
                h2 <= 0x10_0000,
                shared == across * up,
                s == w * h,
                t == w2 * h2,
        ;
        let f = 2 * e;
        lemma_product(a, across, e, b, up, e);
        lemma_product(left.width, w, e, left.height, h, e);
        lemma_product(right.width, w2, e, right.height, h2, e);
        let (i, p, q) = (a * b, left.width * left.height, right.width * right.height);
        lemma_sum(p, s, q, t, f);
        lemma_difference(p + q, s + t, i, shared, f);
        let union = p + q - i;
        let covered = s + t - shared;
        let unit = pow2(1074) as int;
        let g = pow2((1074 - f) as nat) as int;
        vstd::arithmetic::power2::lemma_pow2_pos(1074);
        vstd::arithmetic::power2::lemma_pow2_pos((1074 - f) as nat);
        // the union is not next to nothing
        prediction::lemma_epsilon();
        vstd::arithmetic::power2::lemma_pow2_strictly_increases(1022, (1074 - f) as nat);
        assert(covered * g >= g && shared * g > 0) by (nonlinear_arith)
            requires
                covered >= 1,
                shared > 0,
                g > 0,
        ;
        i.lemma_order(union);
        union.lemma_order(zero);
        // the quotient of the values is that of the numbers
        reveal(Double::spec_div);
        reveal(Double::nearest);
        let inf = patterns::infinity(52, 2047);
        Double::lemma_format();
        let (n1, d1) = (shared * g * unit, covered * g);
        let (n2, d2) = (shared * unit, covered);
        assert(n1 * d2 == n2 * d1) by (nonlinear_arith)
            requires
                n1 == shared * g * unit,
                d1 == covered * g,
                n2 == shared * unit,
                d2 == covered,
        ;
        rounding::law_rounding_keeps_order(n1, d1, n2, d2, 52, inf);
        rounding::law_rounding_keeps_order(n2, d2, n1, d1, 52, inf);
    }
}

} // verus!
