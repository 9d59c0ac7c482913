//! Small facts about real numbers.

use vstd::prelude::*;

verus! {

/// A number of this size at most, whatever its sign.
pub open spec fn is_small(x: real, e: real) -> bool {
    -e <= x <= e
}

pub proof fn lemma_integer_product(a: int, b: int)
    ensures
        (a * b) as real == (a as real) * (b as real),
{
    assert((a * b) as real == (a as real) * (b as real)) by (nonlinear_arith);
}

pub proof fn lemma_product_order(a: real, b: real, c: real)
    requires
        a <= b,
        0real <= c,
    ensures
        a * c <= b * c,
{
    assert(a * c <= b * c) by (nonlinear_arith)
        requires
            a <= b,
            0real <= c,
    ;
}

pub proof fn lemma_quotient(a: real, b: real)
    requires
        b > 0real,
    ensures
        (a / b) * b == a,
{
    assert((a / b) * b == a) by (nonlinear_arith)
        requires
            b > 0real,
    ;
}

pub proof fn lemma_distributes(a: real, b: real, c: real)
    ensures
        (a + b) * c == a * c + b * c,
        (a - b) * c == a * c - b * c,
{
    assert((a + b) * c == a * c + b * c) by (nonlinear_arith);
    assert((a - b) * c == a * c - b * c) by (nonlinear_arith);
}

pub proof fn lemma_associates(a: real, b: real, c: real)
    ensures
        (a * b) * c == a * (b * c),
        a * b == b * a,
{
    assert((a * b) * c == a * (b * c)) by (nonlinear_arith);
    assert(a * b == b * a) by (nonlinear_arith);
}

/// What may be multiplied by may be divided by.
pub proof fn lemma_cancels(a: real, b: real, c: real)
    requires
        a * c <= b * c,
        0real < c,
    ensures
        a <= b,
{
    if b < a {
        assert(b * c < a * c) by (nonlinear_arith)
            requires
                b < a,
                0real < c,
        ;
    }
}

/// Squares are ordered as what is squared.
pub proof fn lemma_squares(a: real, b: real)
    requires
        0real <= a <= b,
    ensures
        a * a <= b * b,
{
    lemma_product_order(a, b, a);
    lemma_product_order(a, b, b);
    lemma_associates(a, b, a);
}

/// What is squared is ordered as the squares.
pub proof fn lemma_roots(a: real, b: real)
    requires
        0real <= b,
        a * a <= b * b,
    ensures
        a <= b,
{
    if b < a {
        assert(a * a > b * b) by (nonlinear_arith)
            requires
                0real <= b,
                b < a,
        ;
    }
}

/// `h` is the square root of `d` but for `e`.
pub open spec fn is_near_root(h: real, d: real, e: real) -> bool {
    &&& 0real <= h
    &&& 0real <= e
    &&& e <= h ==> (h - e) * (h - e) <= d
    &&& d <= (h + e) * (h + e)
}

/// The square of a number that is near another one.
proof fn lemma_square_near(x: real, p: real, a: real, b: real)
    requires
        is_small(x - p, a),
        is_small(x, b),
        0real <= a,
        0real <= b,
    ensures
        p * p <= x * x + 2real * (a * b) + a * a,
{
    let d = p - x;
    assert(p * p == x * x + 2real * (x * d) + d * d) by (nonlinear_arith)
        requires
            d == p - x,
    ;
    assert(d * d <= a * a) by {
        if d >= 0real {
            lemma_squares(d, a);
        } else {
            lemma_squares(-d, a);
            assert((-d) * (-d) == d * d) by (nonlinear_arith);
        }
    }
    assert(x * d <= a * b) by {
        if d >= 0real {
            lemma_product_order(x, b, d);
            lemma_product_order(d, a, b);
            lemma_associates(b, d, b);
        } else {
            lemma_product_order(-b, x, -d);
            assert((-b) * (-d) == b * d && x * (-d) == -(x * d)) by (nonlinear_arith);
            lemma_product_order(-d, a, b);
            assert((-d) * b == -(b * d)) by (nonlinear_arith);
        }
    }
}

/// A number is no greater than what its square is below.
proof fn lemma_side(x: real, y: real, h: real)
    requires
        x * x + y * y <= h * h,
        0real <= h,
    ensures
        is_small(x, h),
        is_small(y, h),
{
    assert(x * x >= 0real) by (nonlinear_arith);
    assert(y * y >= 0real) by (nonlinear_arith);
    assert((-x) * (-x) == x * x && (-y) * (-y) == y * y) by (nonlinear_arith);
    lemma_roots(x, h);
    lemma_roots(-x, h);
    lemma_roots(y, h);
    lemma_roots(-y, h);
}

/// Where the sides are moved a little, so is the diagonal.
pub proof fn lemma_near_root_moved(
    h: real,
    x: real,
    y: real,
    p: real,
    q: real,
    e: real,
    a: real,
)
    requires
        is_near_root(h, x * x + y * y, e),
        is_small(x - p, a),
        is_small(y - q, a),
        0real <= a,
    ensures
        is_near_root(h, p * p + q * q, e + 2real * a),
{
    let f = e + 2real * a;
    // from above
    let top = h + e;
    lemma_side(x, y, top);
    lemma_square_near(x, p, a, top);
    lemma_square_near(y, q, a, top);
    assert((h + f) * (h + f) == top * top + 4real * (a * top) + 4real * (a * a))
        by (nonlinear_arith)
        requires
            top == h + e,
            f == e + 2real * a,
    ;
    assert(a * a >= 0real) by (nonlinear_arith);
    // from below
    if f <= h {
        let k = h - f;
        if p * p + q * q < k * k {
            lemma_side(p, q, k);
            lemma_square_near(p, x, a, k);
            lemma_square_near(q, y, a, k);
            assert((h - e) * (h - e) == k * k + 4real * (a * k) + 4real * (a * a))
                by (nonlinear_arith)
                requires
                    k == h - f,
                    f == e + 2real * a,
            ;
            assert(false);
        }
    }
}

/// The roots of a square and of its multiple.
pub proof fn lemma_near_roots_compare(h: real, g: real, d: real, s: real, e: real, f: real)
    requires
        is_near_root(h, d, e),
        is_near_root(g, (s * s) * d, f),
        0real < s,
    ensures
        is_small(s * h - g, s * e + f),
{
    let dd = (s * s) * d;
    assert(s * s > 0real) by (nonlinear_arith)
        requires
            0real < s,
    ;
    lemma_distributes(h, e, s);
    lemma_associates(s, h, s);
    lemma_associates(s, e, s);
    assert(s * e >= 0real) by (nonlinear_arith)
        requires
            s > 0real,
            e >= 0real,
    ;
    assert(s * h >= 0real) by (nonlinear_arith)
        requires
            s > 0real,
            h >= 0real,
    ;
    if e <= h {
        let k = h - e;
        lemma_product_order(k * k, d, s * s);
        assert((k * s) * (k * s) == (k * k) * (s * s)) by (nonlinear_arith);
        lemma_associates(d, s * s, s);
        lemma_roots(k * s, g + f);
    } else {
        lemma_product_order(h, e, s);
    }
    if f <= g {
        let k = h + e;
        lemma_product_order(d, k * k, s * s);
        assert((k * s) * (k * s) == (k * k) * (s * s)) by (nonlinear_arith);
        lemma_associates(d, s * s, s);
        lemma_roots(g - f, k * s);
    }
}

} // verus!
