//! What the alignment of a face does to its landmarks.

use vstd::prelude::*;
use vstd::arithmetic::power2::pow2;
use crate::dyadic;
use crate::dyadic::{is_dyadic, is_dyadic_double};
use crate::face_id::align::{
    image_pixel, leftmost, moments, pixel_sum, rightmost, spec_aligned_tensor, spec_crop,
    spec_five_landmarks, spec_mean_point, spec_sface_template, spec_similarity_transform, Pixel,
};
use crate::face_id::embedding::single_epsilon;
use crate::model;
use crate::model::{FaceView, LandmarkKind, Point};
use crate::single::Single;

verus! {

/// A place at whole numbers.
pub open spec fn is_at(pixel: Pixel, x: int, y: int) -> bool {
    is_dyadic(pixel.x, x, 0) && is_dyadic(pixel.y, y, 0)
}

/// The sum of the first `k` numbers.
pub open spec fn sum_to(xs: Seq<int>, k: int) -> int
    decreases k,
{
    if k <= 0 {
        0
    } else {
        sum_to(xs, k - 1) + xs[k - 1]
    }
}

/// Five places at whole numbers of no more than `limit`, the sign aside, around a middle.
pub open spec fn are_at(
    pixels: Seq<Pixel>,
    xs: Seq<int>,
    ys: Seq<int>,
    mx: int,
    my: int,
    limit: int,
) -> bool {
    &&& pixels.len() == 5 && xs.len() == 5 && ys.len() == 5
    &&& forall|i: int| 0 <= i < 5 ==> is_at(#[trigger] pixels[i], xs[i], ys[i])
    &&& forall|i: int|
        0 <= i < 5 ==> -limit <= #[trigger] xs[i] <= limit && -limit <= ys[i] <= limit
    &&& sum_to(xs, 5) == 5 * mx
    &&& sum_to(ys, 5) == 5 * my
}

proof fn lemma_pixel_sum(pixels: Seq<Pixel>, xs: Seq<int>, ys: Seq<int>, limit: int, k: int)
    requires
        pixels.len() == 5 && xs.len() == 5 && ys.len() == 5,
        forall|i: int| 0 <= i < 5 ==> is_at(#[trigger] pixels[i], xs[i], ys[i]),
        forall|i: int|
            0 <= i < 5 ==> -limit <= #[trigger] xs[i] <= limit && -limit <= ys[i] <= limit,
        0 <= limit <= 0x10_0000,
        0 <= k <= 5,
    ensures
        is_at(pixel_sum(pixels, k), sum_to(xs, k), sum_to(ys, k)),
        -(k * limit) <= sum_to(xs, k) <= k * limit,
        -(k * limit) <= sum_to(ys, k) <= k * limit,
    decreases k,
{
    assert(k * limit <= 5 * limit && (k - 1) * limit + limit == k * limit) by (nonlinear_arith)
        requires
            0 <= k <= 5,
            0 <= limit,
    ;
    dyadic::lemma_integer(0);
    if k > 0 {
        lemma_pixel_sum(pixels, xs, ys, limit, k - 1);
        let sum = pixel_sum(pixels, k - 1);
        let last = pixels[k - 1];
        assert(is_at(last, xs[k - 1], ys[k - 1]));
        assert(-limit <= xs[k - 1] <= limit);
        dyadic::lemma_sum(sum.x, sum_to(xs, k - 1), last.x, xs[k - 1], 0);
        dyadic::lemma_sum(sum.y, sum_to(ys, k - 1), last.y, ys[k - 1], 0);
    }
}

/// The middle of five places.
proof fn lemma_mean(pixels: Seq<Pixel>, xs: Seq<int>, ys: Seq<int>, mx: int, my: int, limit: int)
    requires
        are_at(pixels, xs, ys, mx, my, limit),
        0 <= limit <= 0x10_0000,
    ensures
        is_at(spec_mean_point(pixels), mx, my),
        -limit <= mx <= limit,
        -limit <= my <= limit,
{
    lemma_pixel_sum(pixels, xs, ys, limit, 5);
    dyadic::lemma_integer(5);
    dyadic::lemma_quotient(pixel_sum(pixels, 5).x, mx, Single::integer(5), 5);
    dyadic::lemma_quotient(pixel_sum(pixels, 5).y, my, Single::integer(5), 5);
}

/// How far the first `k` places are from their middle, squared and added up.
pub open spec fn spread(xs: Seq<int>, ys: Seq<int>, mx: int, my: int, k: int) -> int
    decreases k,
{
    if k <= 0 {
        0
    } else {
        spread(xs, ys, mx, my, k - 1) + (xs[k - 1] - mx) * (xs[k - 1] - mx) + (ys[k - 1] - my) * (
        ys[k - 1] - my)
    }
}

/// One pair of places, from their middles.
proof fn lemma_terms(
    sx: Single,
    p: int,
    sy: Single,
    q: int,
    dx: Single,
    dy: Single,
    a: int,
    b: int,
)
    requires
        is_dyadic(sx, p, 0),
        is_dyadic(sy, q, 0),
        is_dyadic(dx, a * p - b * q, 0),
        is_dyadic(dy, b * p + a * q, 0),
        -256 <= p <= 256,
        -256 <= q <= 256,
        -4 <= a <= 4,
        -4 <= b <= 4,
    ensures
        is_dyadic(sx * sx + sy * sy, p * p + q * q, 0),
        is_dyadic(sx * dx + sy * dy, a * (p * p + q * q), 0),
        is_dyadic(sx * dy - sy * dx, b * (p * p + q * q), 0),
        0 <= p * p + q * q <= 131072,
{
    let m = a * p - b * q;
    let n = b * p + a * q;
    assert(0 <= p * p <= 65536 && 0 <= q * q <= 65536) by (nonlinear_arith)
        requires
            -256 <= p <= 256,
            -256 <= q <= 256,
    ;
    assert(-1024 <= a * p <= 1024 && -1024 <= b * q <= 1024 && -1024 <= b * p <= 1024 && -1024 <= a
        * q <= 1024) by (nonlinear_arith)
        requires
            -256 <= p <= 256,
            -256 <= q <= 256,
            -4 <= a <= 4,
            -4 <= b <= 4,
    ;
    assert(-524288 <= p * m <= 524288 && -524288 <= q * n <= 524288 && -524288 <= p * n <= 524288
        && -524288 <= q * m <= 524288) by (nonlinear_arith)
        requires
            -256 <= p <= 256,
            -256 <= q <= 256,
            -2048 <= m <= 2048,
            -2048 <= n <= 2048,
    ;
    assert(p * m + q * n == a * (p * p + q * q)) by (nonlinear_arith)
        requires
            m == a * p - b * q,
            n == b * p + a * q,
    ;
    assert(p * n - q * m == b * (p * p + q * q)) by (nonlinear_arith)
        requires
            m == a * p - b * q,
            n == b * p + a * q,
    ;
    dyadic::lemma_product(sx, p, 0, sx, p, 0);
    dyadic::lemma_product(sy, q, 0, sy, q, 0);
    dyadic::lemma_sum(sx * sx, p * p, sy * sy, q * q, 0);
    dyadic::lemma_product(sx, p, 0, dx, m, 0);
    dyadic::lemma_product(sy, q, 0, dy, n, 0);
    dyadic::lemma_sum(sx * dx, p * m, sy * dy, q * n, 0);
    dyadic::lemma_product(sx, p, 0, dy, n, 0);
    dyadic::lemma_product(sy, q, 0, dx, m, 0);
    dyadic::lemma_difference(sx * dy, p * n, sy * dx, q * m, 0);
}

/// The places that a turn, a scaling and a shift by whole numbers take others to.
pub open spec fn are_moved(
    xs: Seq<int>,
    ys: Seq<int>,
    us: Seq<int>,
    vs: Seq<int>,
    a: int,
    b: int,
    tx: int,
    ty: int,
) -> bool {
    forall|i: int|
        0 <= i < 5 ==> #[trigger] us[i] == a * xs[i] - b * ys[i] + tx && vs[i] == b * xs[i] + a
            * ys[i] + ty
}

/// The middle goes where the places go.
proof fn lemma_middle(xs: Seq<int>, ys: Seq<int>, us: Seq<int>, a: int, b: int, t: int, k: int)
    requires
        0 <= k <= 5,
        xs.len() == 5 && ys.len() == 5 && us.len() == 5,
        forall|i: int| 0 <= i < 5 ==> #[trigger] us[i] == a * xs[i] + b * ys[i] + t,
    ensures
        sum_to(us, k) == a * sum_to(xs, k) + b * sum_to(ys, k) + k * t,
    decreases k,
{
    if k > 0 {
        lemma_middle(xs, ys, us, a, b, t, k - 1);
        assert(us[k - 1] == a * xs[k - 1] + b * ys[k - 1] + t);
        let (p, q, x, y) = (sum_to(xs, k - 1), sum_to(ys, k - 1), xs[k - 1], ys[k - 1]);
        assert(a * (p + x) == a * p + a * x && b * (q + y) == b * q + b * y && k * t == (k - 1) * t
            + t) by (nonlinear_arith);
    } else {
        assert(a * 0 == 0 && b * 0 == 0 && 0 * t == 0) by (nonlinear_arith);
    }
}

#[verifier::rlimit(40)]
proof fn lemma_moments(
    source: Seq<Pixel>,
    destination: Seq<Pixel>,
    xs: Seq<int>,
    ys: Seq<int>,
    us: Seq<int>,
    vs: Seq<int>,
    mx: int,
    my: int,
    a: int,
    b: int,
    tx: int,
    ty: int,
    k: int,
)
    requires
        are_at(source, xs, ys, mx, my, 128),
        are_at(
            destination,
            us,
            vs,
            a * mx - b * my + tx,
            b * mx + a * my + ty,
            0x10_0000,
        ),
        are_moved(xs, ys, us, vs, a, b, tx, ty),
        -4 <= a <= 4,
        -4 <= b <= 4,
        0 <= k <= 5,
    ensures
        ({
            let sums = moments(source, destination, k);
            let total = spread(xs, ys, mx, my, k);
            &&& 0 <= total <= 131072 * k
            &&& is_dyadic(sums.denominator, total, 0)
            &&& is_dyadic(sums.real, a * total, 0)
            &&& is_dyadic(sums.imaginary, b * total, 0)
        }),
    decreases k,
{
    dyadic::lemma_integer(0);
    assert(a * 0 == 0 && b * 0 == 0) by (nonlinear_arith);
    if k > 0 {
        lemma_moments(source, destination, xs, ys, us, vs, mx, my, a, b, tx, ty, k - 1);
        lemma_mean(source, xs, ys, mx, my, 128);
        let (nx, ny) = (a * mx - b * my + tx, b * mx + a * my + ty);
        lemma_mean(destination, us, vs, nx, ny, 0x10_0000);
        let (x, y, u, v) = (xs[k - 1], ys[k - 1], us[k - 1], vs[k - 1]);
        assert(is_at(source[k - 1], x, y) && is_at(destination[k - 1], u, v));
        assert(-128 <= x <= 128 && -0x10_0000 <= u <= 0x10_0000);
        let from = spec_mean_point(source);
        let to = spec_mean_point(destination);
        let (p, q) = (x - mx, y - my);
        assert(u - nx == a * p - b * q && v - ny == b * p + a * q) by (nonlinear_arith)
            requires
                u == a * x - b * y + tx,
                v == b * x + a * y + ty,
                nx == a * mx - b * my + tx,
                ny == b * mx + a * my + ty,
                p == x - mx,
                q == y - my,
        ;
        dyadic::lemma_difference(source[k - 1].x, x, from.x, mx, 0);
        dyadic::lemma_difference(source[k - 1].y, y, from.y, my, 0);
        dyadic::lemma_difference(destination[k - 1].x, u, to.x, nx, 0);
        dyadic::lemma_difference(destination[k - 1].y, v, to.y, ny, 0);
        let sx = source[k - 1].x - from.x;
        let sy = source[k - 1].y - from.y;
        let dx = destination[k - 1].x - to.x;
        let dy = destination[k - 1].y - to.y;
        lemma_terms(sx, p, sy, q, dx, dy, a, b);
        let sums = moments(source, destination, k - 1);
        let total = spread(xs, ys, mx, my, k - 1);
        let part = p * p + q * q;
        assert(-524288 * k <= a * total + a * part <= 524288 * k && -524288 * k <= b * total + b
            * part <= 524288 * k) by (nonlinear_arith)
            requires
                -4 <= a <= 4,
                -4 <= b <= 4,
                0 <= total <= 131072 * (k - 1),
                0 <= part <= 131072,
        ;
        assert(a * (total + part) == a * total + a * part && b * (total + part) == b * total + b
            * part) by (nonlinear_arith);
        dyadic::lemma_sum(sums.denominator, total, sx * sx + sy * sy, part, 0);
        dyadic::lemma_sum(sums.real, a * total, sx * dx + sy * dy, a * part, 0);
        dyadic::lemma_sum(sums.imaginary, b * total, sx * dy - sy * dx, b * part, 0);
    }
}

/// The alignment finds the turn, the scaling and the shift that took five places to five others:
/// exactly so where all of it is in whole numbers and the places are not all one.
pub proof fn law_alignment_finds_the_motion(
    source: Seq<Pixel>,
    destination: Seq<Pixel>,
    xs: Seq<int>,
    ys: Seq<int>,
    us: Seq<int>,
    vs: Seq<int>,
    mx: int,
    my: int,
    a: int,
    b: int,
    tx: int,
    ty: int,
)
    requires
        are_at(source, xs, ys, mx, my, 128),
        destination.len() == 5 && us.len() == 5 && vs.len() == 5,
        forall|i: int| 0 <= i < 5 ==> is_at(#[trigger] destination[i], us[i], vs[i]),
        are_moved(xs, ys, us, vs, a, b, tx, ty),
        -4 <= a <= 4,
        -4 <= b <= 4,
        a != 0 || b != 0,
        -0x1_0000 <= tx <= 0x1_0000,
        -0x1_0000 <= ty <= 0x1_0000,
        spread(xs, ys, mx, my, 5) > 0,
    ensures
        spec_similarity_transform(source, destination) matches Ok(transform) && is_dyadic(
            transform.a,
            a,
            0,
        ) && is_dyadic(transform.b, b, 0) && is_dyadic(transform.tx, tx, 0) && is_dyadic(
            transform.ty,
            ty,
            0,
        ),
{
    let (nx, ny) = (a * mx - b * my + tx, b * mx + a * my + ty);
    assert forall|i: int| 0 <= i < 5 implies -0x10_0000 <= #[trigger] us[i] <= 0x10_0000
        && -0x10_0000 <= vs[i] <= 0x10_0000 by {
        assert(us[i] == a * xs[i] - b * ys[i] + tx);
        assert(-128 <= xs[i] <= 128);
        lemma_small(a, b, xs[i], ys[i]);
    }
    assert forall|i: int| 0 <= i < 5 implies #[trigger] us[i] == a * xs[i] + (-b) * ys[i] + tx by {
        assert(us[i] == a * xs[i] - b * ys[i] + tx);
        assert((-b) * ys[i] == -(b * ys[i])) by (nonlinear_arith);
    }
    assert forall|i: int| 0 <= i < 5 implies #[trigger] vs[i] == b * xs[i] + a * ys[i] + ty by {
        assert(us[i] == a * xs[i] - b * ys[i] + tx);
    }
    lemma_middle(xs, ys, us, a, -b, tx, 5);
    lemma_middle(xs, ys, vs, b, a, ty, 5);
    let (p, q) = (sum_to(xs, 5), sum_to(ys, 5));
    assert(a * p + (-b) * q + 5 * tx == 5 * nx && b * p + a * q + 5 * ty == 5 * ny)
        by (nonlinear_arith)
        requires
            p == 5 * mx,
            q == 5 * my,
            nx == a * mx - b * my + tx,
            ny == b * mx + a * my + ty,
    ;
    lemma_moments(source, destination, xs, ys, us, vs, mx, my, a, b, tx, ty, 5);
    lemma_mean(source, xs, ys, mx, my, 128);
    lemma_mean(destination, us, vs, nx, ny, 0x10_0000);
    let total = spread(xs, ys, mx, my, 5);
    let sums = moments(source, destination, 5);
    let sa = sums.real / sums.denominator;
    let sb = sums.imaginary / sums.denominator;
    dyadic::lemma_quotient(sums.real, a, sums.denominator, total);
    dyadic::lemma_quotient(sums.imaginary, b, sums.denominator, total);
    assert(0 <= a * a <= 16 && 0 <= b * b <= 16 && a * a + b * b >= 1) by (nonlinear_arith)
        requires
            -4 <= a <= 4,
            -4 <= b <= 4,
            a != 0 || b != 0,
    ;
    dyadic::lemma_product(sa, a, 0, sa, a, 0);
    dyadic::lemma_product(sb, b, 0, sb, b, 0);
    dyadic::lemma_sum(sa * sa, a * a, sb * sb, b * b, 0);
    lemma_above_epsilon(sums.denominator, total);
    lemma_above_epsilon(sa * sa + sb * sb, a * a + b * b);
    let from = spec_mean_point(source);
    let to = spec_mean_point(destination);
    lemma_small(a, b, mx, my);
    dyadic::lemma_product(sa, a, 0, from.x, mx, 0);
    dyadic::lemma_product(sb, b, 0, from.y, my, 0);
    dyadic::lemma_product(sb, b, 0, from.x, mx, 0);
    dyadic::lemma_product(sa, a, 0, from.y, my, 0);
    dyadic::lemma_difference(to.x, nx, sa * from.x, a * mx, 0);
    dyadic::lemma_sum(to.x - sa * from.x, nx - a * mx, sb * from.y, b * my, 0);
    dyadic::lemma_difference(to.y, ny, sb * from.x, b * mx, 0);
    dyadic::lemma_difference(to.y - sb * from.x, ny - b * mx, sa * from.y, a * my, 0);
}

proof fn lemma_small(a: int, b: int, x: int, y: int)
    requires
        -4 <= a <= 4,
        -4 <= b <= 4,
        -128 <= x <= 128,
        -128 <= y <= 128,
    ensures
        -512 <= a * x <= 512,
        -512 <= b * y <= 512,
        -512 <= b * x <= 512,
        -512 <= a * y <= 512,
{
    assert(-512 <= a * x <= 512 && -512 <= b * y <= 512 && -512 <= b * x <= 512 && -512 <= a * y
        <= 512) by (nonlinear_arith)
        requires
            -4 <= a <= 4,
            -4 <= b <= 4,
            -128 <= x <= 128,
            -128 <= y <= 128,
    ;
}

/// A positive whole number is not next to nothing.
proof fn lemma_above_epsilon(x: Single, n: int)
    requires
        is_dyadic(x, n, 0),
        n >= 1,
    ensures
        !x.at_most(single_epsilon()),
{
    let e = single_epsilon();
    vstd::arithmetic::power2::lemma2_to64();
    vstd::arithmetic::power2::lemma_pow2_adds(23, 126);
    assert(1 * pow2(149) == 1 * dyadic::unit(23) * 8_388_608);
    dyadic::lemma_nearest(false, 1, 23, 1u64 * pow2(149), 8_388_608);
    assert(is_dyadic(e, 1, 23));
    dyadic::lemma_finer(x, n, 0, 23);
    dyadic::lemma_order(e, 1, x, n * pow2(23), 23);
}

/// The corners of a mouth are points of the lips, none of which is further to the left or to the
/// right.
pub proof fn law_mouth_corners(lips: Seq<Point>, i: int)
    requires
        0 <= i < lips.len(),
    ensures
        ({
            let n = lips.len() as int;
            &&& lips.contains(leftmost(lips, n))
            &&& lips.contains(rightmost(lips, n))
            &&& leftmost(lips, n).x.rank() <= lips[i].x.rank() <= rightmost(lips, n).x.rank()
        }),
{
    lemma_corners(lips, lips.len() as int, i);
}

proof fn lemma_corners(lips: Seq<Point>, k: int, i: int)
    requires
        0 <= i < k <= lips.len(),
    ensures
        lips.contains(leftmost(lips, k)),
        lips.contains(rightmost(lips, k)),
        leftmost(lips, k).x.rank() <= lips[i].x.rank() <= rightmost(lips, k).x.rank(),
    decreases k,
{
    if k > 1 {
        if i < k - 1 {
            lemma_corners(lips, k - 1, i);
        } else {
            lemma_corners(lips, k - 1, 0);
        }
        assert(lips.contains(lips[k - 1]));
    } else {
        assert(lips.contains(lips[0]));
    }
}

/// A point whose place is counted from the lower left corner of an image is at the place that is as
/// far from the left and, from the top, as far as it is from the upper edge: exactly so where its
/// coordinates are in whole units of `2^-10`.
pub proof fn law_image_is_turned_over(point: Point, m: int, n: int, width: u64, height: u64)
    requires
        is_dyadic_double(point.x, m, 10),
        is_dyadic_double(point.y, n, 10),
        -2048 <= m <= 2048,
        -2048 <= n <= 2048,
        width <= 4096,
        height <= 4096,
    ensures
        ({
            let pixel = image_pixel(point, Single::integer(width), Single::integer(height));
            &&& is_dyadic(pixel.x, m * width, 10)
            &&& is_dyadic(pixel.y, (1024 - n) * height, 10)
        }),
{
    vstd::arithmetic::power2::lemma2_to64();
    dyadic::lemma_to_single(point.x, m, 10);
    dyadic::lemma_to_single(point.y, n, 10);
    dyadic::lemma_integer(width);
    dyadic::lemma_integer(height);
    dyadic::lemma_integer(1);
    let one = Single::integer(1);
    dyadic::lemma_finer(one, 1, 0, 10);
    dyadic::lemma_difference(one, 1024, point.y.to_single(), n, 10);
    assert(-0x100_0000 <= m * width <= 0x100_0000 && -0x100_0000 <= (1024 - n) * height
        <= 0x100_0000) by (nonlinear_arith)
        requires
            -2048 <= m <= 2048,
            -2048 <= n <= 2048,
            0 <= width <= 4096,
            0 <= height <= 4096,
    ;
    dyadic::lemma_product(point.x.to_single(), m, 10, Single::integer(width), width as int, 0);
    dyadic::lemma_product(
        one - point.y.to_single(),
        1024 - n,
        10,
        Single::integer(height),
        height as int,
        0,
    );
}

/// The landmarks that a face is aligned by: the middles of the eyes from left to right, whichever
/// is called the left one, the nose, and the corners of the mouth from left to right.
pub proof fn law_five_landmarks(face: FaceView, width: Single, height: Single)
    requires
        spec_five_landmarks(face, width, height) is Ok,
    ensures
        ({
            let found = spec_five_landmarks(face, width, height)->Ok_0;
            let left = model::spec_region_center(face.landmarks, LandmarkKind::LeftEye);
            let right = model::spec_region_center(face.landmarks, LandmarkKind::RightEye);
            let nose = model::spec_nose(face.landmarks);
            let lips = model::spec_region(face.landmarks, LandmarkKind::OuterLips);
            &&& found.len() == 5
            &&& left is Some && right is Some && nose is Some && lips is Some
            &&& exists|first: Point, second: Point|
                #![trigger image_pixel(first, width, height), image_pixel(second, width, height)]
                {
                    &&& (first == left->0 && second == right->0) || (first == right->0 && second
                        == left->0)
                    &&& first.x.rank() <= second.x.rank()
                    &&& found[0] == image_pixel(first, width, height)
                    &&& found[1] == image_pixel(second, width, height)
                }
            &&& found[2] == image_pixel(nose->0, width, height)
            &&& exists|first: Point, second: Point|
                #![trigger image_pixel(first, width, height), image_pixel(second, width, height)]
                {
                    &&& lips->0.contains(first) && lips->0.contains(second)
                    &&& forall|i: int|
                        0 <= i < lips->0.len() ==> first.x.rank() <= (
                        #[trigger] lips->0[i]).x.rank() <= second.x.rank()
                    &&& found[3] == image_pixel(first, width, height)
                    &&& found[4] == image_pixel(second, width, height)
                }
        }),
{
    let found = spec_five_landmarks(face, width, height)->Ok_0;
    let left = model::spec_region_center(face.landmarks, LandmarkKind::LeftEye)->0;
    let right = model::spec_region_center(face.landmarks, LandmarkKind::RightEye)->0;
    let lips = model::spec_region(face.landmarks, LandmarkKind::OuterLips)->0;
    let n = lips.len() as int;
    let swapped = right.x.precedes(left.x);
    let (first, second) = if swapped {
        (right, left)
    } else {
        (left, right)
    };
    assert(found[0] == image_pixel(first, width, height) && found[1] == image_pixel(
        second,
        width,
        height,
    ));
    let (a, b) = (leftmost(lips, n), rightmost(lips, n));
    assert(found[3] == image_pixel(a, width, height) && found[4] == image_pixel(b, width, height));
    assert forall|i: int| 0 <= i < n implies a.x.rank() <= (#[trigger] lips[i]).x.rank()
        <= b.x.rank() by {
        law_mouth_corners(lips, i);
    }
    law_mouth_corners(lips, 0);
}

/// A face is cut out as its own landmarks lie: the eyes, the nose and the corners of the mouth are
/// brought to where the model expects them, and the crop is taken by that. It fails where a
/// landmark is missing, where the landmarks are one, or where the image is not laid out as said.
pub proof fn law_face_is_aligned_by_its_landmarks(
    pixels: Seq<u8>,
    width: usize,
    height: usize,
    bytes_per_row: usize,
    face: FaceView,
)
    ensures
        ({
            let (w, h) = (Single::integer(width as u64), Single::integer(height as u64));
            let found = spec_five_landmarks(face, w, h);
            let places = seq![
                Pixel { x: Single::ratio(382946, 10000), y: Single::ratio(516963, 10000) },
                Pixel { x: Single::ratio(735318, 10000), y: Single::ratio(515014, 10000) },
                Pixel { x: Single::ratio(560252, 10000), y: Single::ratio(717366, 10000) },
                Pixel { x: Single::ratio(415493, 10000), y: Single::ratio(923655, 10000) },
                Pixel { x: Single::ratio(707299, 10000), y: Single::ratio(922041, 10000) },
            ];
            let motion = spec_similarity_transform(found->Ok_0, places);
            let fits = 0 < width && 0 < height && width * 4 <= bytes_per_row && bytes_per_row * height
                <= pixels.len();
            let r = spec_aligned_tensor(pixels, width, height, bytes_per_row, face);
            &&& r is Ok <==> fits && found is Ok && motion is Ok
            &&& r is Ok ==> r->Ok_0 == spec_crop(
                pixels,
                width as int,
                height as int,
                bytes_per_row as int,
                motion->Ok_0,
            )
        }),
{
    let places = seq![
        Pixel { x: Single::ratio(382946, 10000), y: Single::ratio(516963, 10000) },
        Pixel { x: Single::ratio(735318, 10000), y: Single::ratio(515014, 10000) },
        Pixel { x: Single::ratio(560252, 10000), y: Single::ratio(717366, 10000) },
        Pixel { x: Single::ratio(415493, 10000), y: Single::ratio(923655, 10000) },
        Pixel { x: Single::ratio(707299, 10000), y: Single::ratio(922041, 10000) },
    ];
    assert(spec_sface_template() =~= places);
}

} // verus!
