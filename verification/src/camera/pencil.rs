//! Circles through two points of the plane, in exact arithmetic.

use vstd::prelude::*;

verus! {

/// A place in the plane by whole coordinates.
pub struct Place {
    pub x: int,
    pub y: int,
}

/// Twice the signed area of a triangle: positive where `q` is to the left of the way from `a` to
/// `b`.
pub open spec fn side(a: Place, b: Place, q: Place) -> int {
    (b.x - a.x) * (q.y - a.y) - (b.y - a.y) * (q.x - a.x)
}

/// The scalar product of the ways from two points to a third.
pub open spec fn power(a: Place, b: Place, q: Place) -> int {
    (q.x - a.x) * (q.x - b.x) + (q.y - a.y) * (q.y - b.y)
}

/// Compares where `r` and `q` meet the circles through `a` and `b`; zero where all four are on
/// one.
pub open spec fn against(a: Place, b: Place, r: Place, q: Place) -> int {
    power(a, b, q) * side(a, b, r) - power(a, b, r) * side(a, b, q)
}

/// `q` is inside the circle through `a`, `b` and `r`.
pub open spec fn is_inside(a: Place, b: Place, r: Place, q: Place) -> bool {
    against(a, b, r, q) * side(a, b, r) < 0
}

/// How three ways from a point relate.
proof fn lemma_ways(u1: int, u2: int, v1: int, v2: int, w1: int, w2: int)
    ensures
        (u1 * v2 - u2 * v1) * (v1 * w1 + v2 * w2) == (v1 * v1 + v2 * v2) * (u1 * w2 - u2 * w1) - (u1
            * v1 + u2 * v2) * (v1 * w2 - v2 * w1),
{
    let m = v1 * w1 + v2 * w2;
    let n = v1 * v1 + v2 * v2;
    let c = v1 * w2 - v2 * w1;
    assert(v2 * m == n * w2 - v1 * c) by (nonlinear_arith)
        requires
            m == v1 * w1 + v2 * w2,
            n == v1 * v1 + v2 * v2,
            c == v1 * w2 - v2 * w1,
    ;
    assert(v1 * m == n * w1 + v2 * c) by (nonlinear_arith)
        requires
            m == v1 * w1 + v2 * w2,
            n == v1 * v1 + v2 * v2,
            c == v1 * w2 - v2 * w1,
    ;
    assert((u1 * v2 - u2 * v1) * m == u1 * (v2 * m) - u2 * (v1 * m)) by (nonlinear_arith);
    let f = n * w2 - v1 * c;
    let g = n * w1 + v2 * c;
    assert(u1 * f == n * (u1 * w2) - (u1 * v1) * c) by (nonlinear_arith)
        requires
            f == n * w2 - v1 * c,
    ;
    assert(u2 * g == n * (u2 * w1) + (u2 * v2) * c) by (nonlinear_arith)
        requires
            g == n * w1 + v2 * c,
    ;
    assert(n * (u1 * w2 - u2 * w1) == n * (u1 * w2) - n * (u2 * w1)) by (nonlinear_arith);
    assert((u1 * v1 + u2 * v2) * c == (u1 * v1) * c + (u2 * v2) * c) by (nonlinear_arith);
}

/// Which of three points of a circle come first does not matter: the first two change places.
pub proof fn lemma_swapped(a: Place, b: Place, r: Place, q: Place)
    ensures
        side(b, a, q) == -side(a, b, q),
        power(b, a, q) == power(a, b, q),
        is_inside(b, a, r, q) == is_inside(a, b, r, q),
{
    lemma_side_swapped(a, b, q);
    lemma_side_swapped(a, b, r);
    lemma_power_swapped(a, b, q);
    lemma_power_swapped(a, b, r);
    let s = side(a, b, r);
    let t = side(a, b, q);
    let g = power(a, b, q);
    let h = power(a, b, r);
    let e = g * s - h * t;
    assert(g * (-s) - h * (-t) == -e) by (nonlinear_arith)
        requires
            e == g * s - h * t,
    ;
    assert((-e) * (-s) == e * s) by (nonlinear_arith);
}

proof fn lemma_side_swapped(a: Place, b: Place, q: Place)
    ensures
        side(b, a, q) == -side(a, b, q),
{
    let u1 = b.x - a.x;
    let u2 = b.y - a.y;
    let w1 = q.x - a.x;
    let w2 = q.y - a.y;
    assert((-u1) * (w2 - u2) - (-u2) * (w1 - u1) == -(u1 * w2 - u2 * w1)) by (nonlinear_arith);
}

proof fn lemma_power_swapped(a: Place, b: Place, q: Place)
    ensures
        power(b, a, q) == power(a, b, q),
{
    assert((q.x - a.x) * (q.x - b.x) == (q.x - b.x) * (q.x - a.x)) by (nonlinear_arith);
    assert((q.y - a.y) * (q.y - b.y) == (q.y - b.y) * (q.y - a.y)) by (nonlinear_arith);
}

/// The side of the first point as seen from the other two.
pub proof fn lemma_side_turned(a: Place, b: Place, r: Place)
    ensures
        side(b, r, a) == side(a, b, r),
{
    let u1 = b.x - a.x;
    let u2 = b.y - a.y;
    let v1 = r.x - a.x;
    let v2 = r.y - a.y;
    assert((v1 - u1) * (-u2) - (v2 - u2) * (-u1) == u1 * v2 - u2 * v1) by (nonlinear_arith);
}

/// Which of three points of a circle come first does not matter: all three move on by one.
pub proof fn lemma_turned(a: Place, b: Place, r: Place, q: Place)
    ensures
        side(b, r, a) == side(a, b, r),
        is_inside(b, r, a, q) == is_inside(a, b, r, q),
{
    let u1 = b.x - a.x;
    let u2 = b.y - a.y;
    let v1 = r.x - a.x;
    let v2 = r.y - a.y;
    let w1 = q.x - a.x;
    let w2 = q.y - a.y;
    lemma_side_turned(a, b, r);
    lemma_ways(u1, u2, v1, v2, w1, w2);
    let d = u1 * v2 - u2 * v1;
    let uv = u1 * v1 + u2 * v2;
    let vv = v1 * v1 + v2 * v2;
    let vw = v1 * w1 + v2 * w2;
    let cross_uw = u1 * w2 - u2 * w1;
    let cross_vw = v1 * w2 - v2 * w1;
    let g = power(a, b, q);
    let h = power(a, b, r);
    let g2 = power(b, r, q);
    assert(side(a, b, r) == d && side(a, b, q) == cross_uw);
    assert(h == vv - uv) by (nonlinear_arith)
        requires
            h == v1 * (v1 - u1) + v2 * (v2 - u2),
            vv == v1 * v1 + v2 * v2,
            uv == u1 * v1 + u2 * v2,
    ;
    assert(g - g2 == vw - uv) by (nonlinear_arith)
        requires
            g == w1 * (w1 - u1) + w2 * (w2 - u2),
            g2 == (w1 - u1) * (w1 - v1) + (w2 - u2) * (w2 - v2),
            vw == v1 * w1 + v2 * w2,
            uv == u1 * v1 + u2 * v2,
    ;
    assert(power(b, r, a) == uv) by (nonlinear_arith)
        requires
            power(b, r, a) == (-u1) * (-v1) + (-u2) * (-v2),
            uv == u1 * v1 + u2 * v2,
    ;
    assert(side(b, r, q) == cross_vw + d - cross_uw) by (nonlinear_arith)
        requires
            side(b, r, q) == (v1 - u1) * (w2 - u2) - (v2 - u2) * (w1 - u1),
            cross_vw == v1 * w2 - v2 * w1,
            d == u1 * v2 - u2 * v1,
            cross_uw == u1 * w2 - u2 * w1,
    ;
    assert(g * d == g2 * d + vw * d - uv * d) by (nonlinear_arith)
        requires
            g - g2 == vw - uv,
    ;
    assert((vv - uv) * cross_uw == vv * cross_uw - uv * cross_uw) by (nonlinear_arith);
    assert(uv * (cross_vw + d - cross_uw) == uv * cross_vw + uv * d - uv * cross_uw)
        by (nonlinear_arith);
    assert(d * vw == vw * d) by (nonlinear_arith);
    assert(against(a, b, r, q) == against(b, r, a, q));
}

/// A point inside a triangle is on the same side of every line as some corner.
pub proof fn lemma_corner_on_side(
    a: Place,
    b: Place,
    p: Place,
    c1: Place,
    c2: Place,
    c3: Place,
)
    requires
        side(c1, c2, p) > 0,
        side(c2, c3, p) > 0,
        side(c3, c1, p) > 0,
        side(a, b, p) > 0,
    ensures
        side(a, b, c1) > 0 || side(a, b, c2) > 0 || side(a, b, c3) > 0,
{
    let u1 = b.x - a.x;
    let u2 = b.y - a.y;
    let x1 = c1.x - p.x;
    let y1 = c1.y - p.y;
    let x2 = c2.x - p.x;
    let y2 = c2.y - p.y;
    let x3 = c3.x - p.x;
    let y3 = c3.y - p.y;
    let alpha = x2 * y3 - y2 * x3;
    let beta = x3 * y1 - y3 * x1;
    let gamma = x1 * y2 - y1 * x2;
    lemma_from_inside(c1, c2, p);
    lemma_from_inside(c2, c3, p);
    lemma_from_inside(c3, c1, p);
    let f = side(a, b, p);
    let f1 = side(a, b, c1);
    let f2 = side(a, b, c2);
    let f3 = side(a, b, c3);
    lemma_side_moved(a, b, p, c1);
    lemma_side_moved(a, b, p, c2);
    lemma_side_moved(a, b, p, c3);
    assert(alpha * x1 + beta * x2 + gamma * x3 == 0) by (nonlinear_arith)
        requires
            alpha == x2 * y3 - y2 * x3,
            beta == x3 * y1 - y3 * x1,
            gamma == x1 * y2 - y1 * x2,
    ;
    assert(alpha * y1 + beta * y2 + gamma * y3 == 0) by (nonlinear_arith)
        requires
            alpha == x2 * y3 - y2 * x3,
            beta == x3 * y1 - y3 * x1,
            gamma == x1 * y2 - y1 * x2,
    ;
    let g1 = u1 * y1 - u2 * x1;
    let g2 = u1 * y2 - u2 * x2;
    let g3 = u1 * y3 - u2 * x3;
    assert(alpha * g1 == u1 * (alpha * y1) - u2 * (alpha * x1)) by (nonlinear_arith)
        requires
            g1 == u1 * y1 - u2 * x1,
    ;
    assert(beta * g2 == u1 * (beta * y2) - u2 * (beta * x2)) by (nonlinear_arith)
        requires
            g2 == u1 * y2 - u2 * x2,
    ;
    assert(gamma * g3 == u1 * (gamma * y3) - u2 * (gamma * x3)) by (nonlinear_arith)
        requires
            g3 == u1 * y3 - u2 * x3,
    ;
    let ys = alpha * y1 + beta * y2 + gamma * y3;
    let xs = alpha * x1 + beta * x2 + gamma * x3;
    assert(u1 * ys == u1 * (alpha * y1) + u1 * (beta * y2) + u1 * (gamma * y3)) by (nonlinear_arith)
        requires
            ys == alpha * y1 + beta * y2 + gamma * y3,
    ;
    assert(u2 * xs == u2 * (alpha * x1) + u2 * (beta * x2) + u2 * (gamma * x3)) by (nonlinear_arith)
        requires
            xs == alpha * x1 + beta * x2 + gamma * x3,
    ;
    assert(u1 * 0 == 0 && u2 * 0 == 0);
    assert(alpha * g1 + beta * g2 + gamma * g3 == 0);
    if f1 <= 0 && f2 <= 0 && f3 <= 0 {
        assert(g1 < 0 && g2 < 0 && g3 < 0);
        assert(alpha * g1 < 0) by (nonlinear_arith)
            requires
                alpha > 0,
                g1 < 0,
        ;
        assert(beta * g2 < 0) by (nonlinear_arith)
            requires
                beta > 0,
                g2 < 0,
        ;
        assert(gamma * g3 < 0) by (nonlinear_arith)
            requires
                gamma > 0,
                g3 < 0,
        ;
    }
}

/// The side of a point by the ways from it.
proof fn lemma_from_inside(c: Place, e: Place, p: Place)
    ensures
        side(c, e, p) == (c.x - p.x) * (e.y - p.y) - (c.y - p.y) * (e.x - p.x),
{
    let x = c.x - p.x;
    let y = c.y - p.y;
    let z = e.x - p.x;
    let w = e.y - p.y;
    assert((z - x) * (-y) - (w - y) * (-x) == x * w - y * z) by (nonlinear_arith);
}

/// How the side changes along a way.
proof fn lemma_side_moved(a: Place, b: Place, p: Place, c: Place)
    ensures
        side(a, b, c) == side(a, b, p) + (b.x - a.x) * (c.y - p.y) - (b.y - a.y) * (c.x - p.x),
{
    let u1 = b.x - a.x;
    let u2 = b.y - a.y;
    let w1 = p.x - a.x;
    let w2 = p.y - a.y;
    let z1 = c.x - p.x;
    let z2 = c.y - p.y;
    assert(u1 * (w2 + z2) - u2 * (w1 + z1) == (u1 * w2 - u2 * w1) + u1 * z2 - u2 * z1)
        by (nonlinear_arith);
}

/// Where a point meets the circles through `a` and `b`, over its distance from their line.
pub open spec fn meets(a: Place, b: Place, q: Place) -> int {
    if side(a, b, q) > 0 {
        power(a, b, q)
    } else {
        -power(a, b, q)
    }
}

/// The distance of a point from the line through `a` and `b`.
pub open spec fn away(a: Place, b: Place, q: Place) -> int {
    if side(a, b, q) > 0 {
        side(a, b, q)
    } else {
        -side(a, b, q)
    }
}

/// `q` meets an earlier one of the circles through `a` and `b` than `r`.
pub open spec fn is_before(a: Place, b: Place, q: Place, r: Place) -> bool {
    meets(a, b, q) * away(a, b, r) < meets(a, b, r) * away(a, b, q)
}

/// Inside a circle are, on the left, what meets an earlier circle, and on the right, what meets a
/// later one.
pub proof fn lemma_inside_before(a: Place, b: Place, r: Place, q: Place)
    requires
        side(a, b, q) != 0,
        side(a, b, r) != 0,
    ensures
        is_inside(a, b, r, q) == if side(a, b, q) > 0 {
            is_before(a, b, q, r)
        } else {
            is_before(a, b, r, q)
        },
        against(a, b, r, q) != 0 ==> is_before(a, b, q, r) || is_before(a, b, r, q),
        !(is_before(a, b, q, r) && is_before(a, b, r, q)),
{
    let s = side(a, b, r);
    let t = side(a, b, q);
    let g = power(a, b, q);
    let h = power(a, b, r);
    let e = g * s - h * t;
    if s > 0 {
        assert(e * s < 0 <==> e < 0) by (nonlinear_arith)
            requires
                s > 0,
        ;
    } else {
        assert(e * s < 0 <==> e > 0) by (nonlinear_arith)
            requires
                s < 0,
        ;
    }
    assert((-g) * s == -(g * s) && g * (-s) == -(g * s) && (-g) * (-s) == g * s)
        by (nonlinear_arith);
    assert((-h) * t == -(h * t) && h * (-t) == -(h * t) && (-h) * (-t) == h * t)
        by (nonlinear_arith);
}

/// The order of circles is an order.
pub proof fn lemma_before_passes(a: Place, b: Place, q: Place, r: Place, t: Place)
    requires
        side(a, b, q) != 0,
        side(a, b, r) != 0,
        side(a, b, t) != 0,
        is_before(a, b, q, r),
        is_before(a, b, r, t),
    ensures
        is_before(a, b, q, t),
{
    let nq = meets(a, b, q);
    let nr = meets(a, b, r);
    let nt = meets(a, b, t);
    let dq = away(a, b, q);
    let dr = away(a, b, r);
    let dt = away(a, b, t);
    assert((nq * dr) * dt < (nr * dq) * dt) by (nonlinear_arith)
        requires
            nq * dr < nr * dq,
            dt > 0,
    ;
    assert((nr * dt) * dq < (nt * dr) * dq) by (nonlinear_arith)
        requires
            nr * dt < nt * dr,
            dq > 0,
    ;
    assert((nr * dq) * dt == (nr * dt) * dq) by (nonlinear_arith);
    assert((nq * dr) * dt == (nq * dt) * dr && (nt * dr) * dq == (nt * dq) * dr)
        by (nonlinear_arith);
    assert(nq * dt < nt * dq) by (nonlinear_arith)
        requires
            (nq * dt) * dr < (nt * dq) * dr,
            dr > 0,
    ;
}

} // verus!
