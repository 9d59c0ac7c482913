//! Single-precision arithmetic that is exact: on small numbers of halves, quarters and so on.

use vstd::prelude::*;
use vstd::arithmetic::power2::pow2;
use crate::double::Double;
use crate::patterns;
use crate::rounding;
use crate::single::Single;

verus! {

/// The greatest number of units on which arithmetic is exact.
pub open spec fn most() -> int {
    0x100_0000
}

/// The unit of `2^-e`.
pub open spec fn unit(e: nat) -> int {
    pow2((149 - e) as nat) as int
}

/// A value is the number `n * 2^-e`.
pub open spec fn is_dyadic(x: Single, n: int, e: nat) -> bool {
    x.is_finite() && x.value() == n * unit(e)
}

/// The size of a number.
pub open spec fn size(n: int) -> int {
    if n < 0 {
        -n
    } else {
        n
    }
}

/// A small number of units is the value of a pattern.
pub(crate) proof fn lemma_representable(c: int, h: nat) -> (p: int)
    requires
        0 <= c <= most(),
        h <= 149,
    ensures
        0 <= p <= (h + 2) * 0x80_0000,
        rounding::mag(p, 23) == c * pow2(h),
    decreases h,
{
    vstd::arithmetic::power2::lemma2_to64();
    if c == most() {
        let p: int = (h as int + 1) * 0x80_0000 + 0x80_0000;
        rounding::lemma_mag_of_split(p, pow2(23) as int, h as int + 1, 23);
        vstd::arithmetic::power2::lemma_pow2_unfold((h + 1) as nat);
        assert(pow2(23) * pow2((h + 1) as nat) == c * pow2(h)) by (nonlinear_arith)
            requires
                pow2((h + 1) as nat) == 2 * pow2(h),
                c == 2 * pow2(23),
        ;
        p
    } else if c >= pow2(23) || h == 0 {
        let p = h * 0x80_0000 + c;
        rounding::lemma_mag_of_split(p, c, h as int, 23);
        p
    } else {
        vstd::arithmetic::power2::lemma_pow2_unfold(h);
        let p = lemma_representable(2 * c, (h - 1) as nat);
        assert(2 * c * pow2((h - 1) as nat) == c * pow2(h)) by (nonlinear_arith)
            requires
                pow2(h) == 2 * pow2((h - 1) as nat),
        ;
        p
    }
}

/// A small number of units rounds to itself.
pub proof fn lemma_nearest(negative: bool, c: int, e: nat, n: int, d: int)
    requires
        0 <= c <= most(),
        e <= 149,
        d > 0,
        n == c * unit(e) * d,
    ensures
        Single::nearest(negative, n, d).is_finite(),
        Single::nearest(negative, n, d).negative() == negative,
        Single::nearest(negative, n, d).magnitude() == c * unit(e),
{
    reveal(Single::nearest);
    reveal(Single::magnitude);
    Single::lemma_format();
    let p = lemma_representable(c, (149 - e) as nat);
    let inf = patterns::infinity(23, 255);
    rounding::lemma_mag_nonnegative(p, 23);
    if p > 0 {
        rounding::lemma_mag_increases(p - 1, p, 23);
    }
    rounding::lemma_mag_increases(p, p + 1, 23);
    let m = rounding::mag(p, 23);
    let low = if p > 0 {
        rounding::mag(p - 1, 23)
    } else {
        m - 1
    };
    let high = rounding::mag(p + 1, 23);
    assert((low + m) * d < 2 * n && 2 * n < (m + high) * d) by (nonlinear_arith)
        requires
            low < m,
            m < high,
            n == m * d,
            d > 0,
    ;
    rounding::lemma_nearest_is(p, n, d, 23, inf);
}

/// The value of no units.
proof fn lemma_zero_size(negative: bool)
    ensures
        Single::signed(negative, 0).is_finite(),
        Single::signed(negative, 0).value() == 0,
{
    let x = Single::signed(negative, 0);
    x.lemma_order(x);
}

/// The sum of two numbers.
pub proof fn lemma_sum(x: Single, a: int, y: Single, b: int, e: nat)
    requires
        is_dyadic(x, a, e),
        is_dyadic(y, b, e),
        size(a + b) <= most(),
        e <= 149,
    ensures
        is_dyadic(x + y, a + b, e),
{
    reveal(Single::spec_add);
    let u = unit(e);
    vstd::arithmetic::power2::lemma_pow2_pos((149 - e) as nat);
    let exact = x.value() + y.value();
    assert(exact == (a + b) * u) by (nonlinear_arith)
        requires
            exact == a * u + b * u,
    ;
    assert(a + b > 0 <==> exact > 0) by (nonlinear_arith)
        requires
            exact == (a + b) * u,
            u > 0,
    ;
    assert(a + b < 0 <==> exact < 0) by (nonlinear_arith)
        requires
            exact == (a + b) * u,
            u > 0,
    ;
    if exact > 0 {
        assert((a + b) * u * 1 == exact);
        lemma_nearest(false, a + b, e, exact, 1);
    } else if exact < 0 {
        assert(-(a + b) * u * 1 == -exact) by (nonlinear_arith)
            requires
                exact == (a + b) * u,
        ;
        lemma_nearest(true, -(a + b), e, -exact, 1);
    } else {
        lemma_zero_size(x.negative() && y.negative());
    }
}

/// The opposite of a number.
pub proof fn lemma_opposite(x: Single, a: int, e: nat)
    requires
        is_dyadic(x, a, e),
    ensures
        is_dyadic(x.negated(), -a, e),
{
    x.lemma_order(x.negated());
    assert(-a * unit(e) == -(a * unit(e))) by (nonlinear_arith);
}

/// The difference of two numbers.
pub proof fn lemma_difference(x: Single, a: int, y: Single, b: int, e: nat)
    requires
        is_dyadic(x, a, e),
        is_dyadic(y, b, e),
        size(a - b) <= most(),
        e <= 149,
    ensures
        is_dyadic(x - y, a - b, e),
{
    lemma_opposite(y, b, e);
    lemma_sum(x, a, y.negated(), -b, e);
}

/// The size of a value is that of its number.
proof fn lemma_size(x: Single, a: int, e: nat)
    requires
        is_dyadic(x, a, e),
        e <= 149,
    ensures
        x.magnitude() == size(a) * unit(e),
        x.magnitude() >= 0,
        x.negative() ==> a <= 0,
        !x.negative() ==> a >= 0,
        x.pattern() == 0 <==> a == 0,
{
    let u = unit(e);
    vstd::arithmetic::power2::lemma_pow2_pos((149 - e) as nat);
    x.lemma_order(x);
    assert(-a * u == -(a * u)) by (nonlinear_arith);
    assert(a > 0 <==> a * u > 0) by (nonlinear_arith)
        requires
            u > 0,
    ;
    assert(a < 0 <==> a * u < 0) by (nonlinear_arith)
        requires
            u > 0,
    ;
}

/// The product of two numbers.
pub proof fn lemma_product(x: Single, a: int, e: nat, y: Single, b: int, f: nat)
    requires
        is_dyadic(x, a, e),
        is_dyadic(y, b, f),
        e + f <= 149,
        size(a * b) <= most(),
    ensures
        is_dyadic(x * y, a * b, e + f),
{
    reveal(Single::spec_mul);
    lemma_size(x, a, e);
    lemma_size(y, b, f);
    let (u, v, w) = (unit(e), unit(f), unit(e + f));
    let one = pow2(149) as int;
    vstd::arithmetic::power2::lemma_pow2_pos(149);
    vstd::arithmetic::power2::lemma_pow2_adds((149 - e) as nat, (149 - f) as nat);
    vstd::arithmetic::power2::lemma_pow2_adds((149 - (e + f)) as nat, 149);
    assert(u * v == w * one);
    let (p, q) = (size(a), size(b));
    assert(p * q == size(a * b)) by (nonlinear_arith)
        requires
            p == size(a),
            q == size(b),
    ;
    assert(p * u * (q * v) == p * q * (u * v)) by (nonlinear_arith);
    assert(p * q * (w * one) == p * q * w * one) by (nonlinear_arith);
    let negative = x.negative() != y.negative();
    lemma_nearest(negative, p * q, e + f, p * u * (q * v), one);
    assert(-(p * q) * w == -(p * q * w)) by (nonlinear_arith);
    assert(if negative {
        a * b <= 0
    } else {
        a * b >= 0
    }) by (nonlinear_arith)
        requires
            x.negative() ==> a <= 0,
            !x.negative() ==> a >= 0,
            y.negative() ==> b <= 0,
            !y.negative() ==> b >= 0,
            negative == (x.negative() != y.negative()),
    ;
}

/// A number over one.
pub proof fn lemma_over_one(x: Single, a: int, e: nat, y: Single)
    requires
        is_dyadic(x, a, e),
        is_dyadic(y, 1, 0),
        size(a) <= most(),
        e <= 149,
    ensures
        is_dyadic(x / y, a, e),
{
    reveal(Single::spec_div);
    lemma_size(x, a, e);
    lemma_size(y, 1, 0);
    let u = unit(e);
    let one = pow2(149) as int;
    vstd::arithmetic::power2::lemma_pow2_pos(149);
    let negative = x.negative() != y.negative();
    assert(y.magnitude() == one);
    lemma_nearest(negative, size(a), e, size(a) * u * one, one);
    assert(-a * u == -(a * u)) by (nonlinear_arith);
}

/// The same number in smaller units.
pub proof fn lemma_finer(x: Single, a: int, e: nat, k: nat)
    requires
        is_dyadic(x, a, e),
        e + k <= 149,
    ensures
        is_dyadic(x, a * pow2(k), e + k),
{
    vstd::arithmetic::power2::lemma_pow2_adds(k, (149 - (e + k)) as nat);
    let (p, w) = (pow2(k) as int, unit(e + k));
    assert(a * (p * w) == a * p * w) by (nonlinear_arith);
}

/// An integer.
pub proof fn lemma_integer(n: u64)
    requires
        n <= most(),
    ensures
        is_dyadic(Single::integer(n), n as int, 0),
        !Single::integer(n).negative(),
{
    lemma_nearest(false, n as int, 0, n * pow2(149), 1);
}

/// One half.
pub proof fn lemma_half()
    ensures
        is_dyadic(Single::ratio(1, 2), 1, 1),
{
    vstd::arithmetic::power2::lemma_pow2_unfold(149);
    assert(1 * pow2(149) == 1 * unit(1) * 2) by (nonlinear_arith)
        requires
            pow2(149) == 2 * unit(1),
    ;
    lemma_nearest(false, 1, 1, 1u64 * pow2(149), 2);
}

/// The integer in a number.
pub proof fn lemma_floor(x: Single, n: int, part: int, e: nat)
    requires
        is_dyadic(x, n * pow2(e) + part, e),
        0 <= n <= most(),
        0 <= part < pow2(e),
        e <= 149,
        !x.negative(),
    ensures
        x.floor() == n,
{
    let u = unit(e);
    let p = pow2(e) as int;
    let one = pow2(149) as int;
    vstd::arithmetic::power2::lemma_pow2_pos((149 - e) as nat);
    vstd::arithmetic::power2::lemma_pow2_pos(149);
    vstd::arithmetic::power2::lemma_pow2_adds(e, (149 - e) as nat);
    assert(p * u == one);
    let m = x.magnitude();
    assert(m == n * one + part * u && 0 <= part * u < one) by (nonlinear_arith)
        requires
            m == (n * p + part) * u,
            p * u == one,
            0 <= part < p,
            u > 0,
    ;
    vstd::arithmetic::div_mod::lemma_fundamental_div_mod_converse(m, one, n, part * u);
}

/// Numbers are ordered as their values are.
pub proof fn lemma_order(x: Single, a: int, y: Single, b: int, e: nat)
    requires
        is_dyadic(x, a, e),
        is_dyadic(y, b, e),
        e <= 149,
    ensures
        x.less(y) == (a < b),
{
    let u = unit(e);
    vstd::arithmetic::power2::lemma_pow2_pos((149 - e) as nat);
    assert(a < b <==> a * u < b * u) by (nonlinear_arith)
        requires
            u > 0,
    ;
}

/// A multiple of a number over that number.
pub proof fn lemma_quotient(x: Single, q: int, y: Single, d: int)
    requires
        is_dyadic(x, q * d, 0),
        is_dyadic(y, d, 0),
        d > 0,
        size(q) <= most(),
    ensures
        is_dyadic(x / y, q, 0),
{
    reveal(Single::spec_div);
    lemma_size(x, q * d, 0);
    lemma_size(y, d, 0);
    let one = pow2(149) as int;
    vstd::arithmetic::power2::lemma_pow2_pos(149);
    let negative = x.negative() != y.negative();
    let c = size(q);
    assert(size(q * d) == c * d) by (nonlinear_arith)
        requires
            c == size(q),
            d > 0,
    ;
    assert(d * one > 0) by (nonlinear_arith)
        requires
            d > 0,
            one > 0,
    ;
    assert(c * d * one * one == c * one * (d * one)) by (nonlinear_arith);
    lemma_nearest(negative, c, 0, c * d * one * one, d * one);
    assert(-c * one == -(c * one)) by (nonlinear_arith);
    assert(q > 0 ==> q * d > 0) by (nonlinear_arith)
        requires
            d > 0,
    ;
    assert(q < 0 ==> q * d < 0) by (nonlinear_arith)
        requires
            d > 0,
    ;
    assert(q == 0 ==> c == 0);
    assert(0 * one == 0);
}

/// A double is the number `n * 2^-e`.
pub open spec fn is_dyadic_double(x: Double, n: int, e: nat) -> bool {
    x.is_finite() && x.value() == n * pow2((1074 - e) as nat)
}

/// A double that is a small number of units is the same number in single precision.
pub proof fn lemma_to_single(x: Double, n: int, e: nat)
    requires
        is_dyadic_double(x, n, e),
        size(n) <= most(),
        e <= 149,
    ensures
        is_dyadic(x.to_single(), n, e),
{
    let u = pow2((1074 - e) as nat) as int;
    let w = unit(e);
    let d = pow2(925) as int;
    vstd::arithmetic::power2::lemma_pow2_pos((1074 - e) as nat);
    vstd::arithmetic::power2::lemma_pow2_pos(925);
    vstd::arithmetic::power2::lemma_pow2_adds((149 - e) as nat, 925);
    x.lemma_order(x);
    assert(w * d == u);
    assert(-n * u == -(n * u)) by (nonlinear_arith);
    assert(n > 0 <==> n * u > 0) by (nonlinear_arith)
        requires
            u > 0,
    ;
    assert(n < 0 <==> n * u < 0) by (nonlinear_arith)
        requires
            u > 0,
    ;
    let c = size(n);
    assert(x.magnitude() == c * u);
    assert(c * (w * d) == c * w * d) by (nonlinear_arith);
    lemma_nearest(x.negative(), c, e, x.magnitude(), d);
    assert(-n * w == -(n * w)) by (nonlinear_arith);
}

} // verus!
