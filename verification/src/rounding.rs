//! Rounding of exact rational values to a binary floating-point format.
//!
//! A format is given by the number `frac` of its fraction bits and by the pattern `inf` of its
//! positive infinity. The patterns `0..=inf` of the nonnegative values are ordered as their values
//! are, so rounding is a statement about neighbouring patterns alone.

use vstd::prelude::*;
use vstd::arithmetic::power2::pow2;

verus! {

/// The magnitude of the pattern `k`, counted in the smallest positive value of the format.
pub open spec fn mag(k: int, frac: nat) -> int {
    let top = pow2(frac) as int;
    if k < top {
        k
    } else {
        (top + k % top) * pow2((k / top - 1) as nat)
    }
}

/// `k` is the pattern nearest to `n / d`, a value exactly between two patterns going to the even
/// one. The pattern of infinity stands for the first value that is out of range.
pub open spec fn is_nearest(k: int, n: int, d: int, frac: nat, inf: int) -> bool {
    &&& 0 <= k <= inf
    &&& k > 0 ==> (mag(k - 1, frac) + mag(k, frac)) * d <= 2 * n
    &&& k > 0 && (mag(k - 1, frac) + mag(k, frac)) * d == 2 * n ==> k % 2 == 0
    &&& k < inf ==> 2 * n <= (mag(k, frac) + mag(k + 1, frac)) * d
    &&& k < inf && 2 * n == (mag(k, frac) + mag(k + 1, frac)) * d ==> k % 2 == 0
}

/// The pattern that `n / d` rounds to.
pub open spec fn nearest(n: int, d: int, frac: nat, inf: int) -> int {
    choose|k: int| is_nearest(k, n, d, frac, inf)
}

/// A pattern split into a significand and an exponent.
pub open spec fn splits(k: int, m: int, j: int, frac: nat) -> bool {
    &&& k == j * pow2(frac) + m
    &&& 0 <= j
    &&& 0 <= m < 2 * pow2(frac)
    &&& j == 0 || m >= pow2(frac)
}

pub proof fn lemma_mag_of_split(k: int, m: int, j: int, frac: nat)
    requires
        splits(k, m, j, frac),
    ensures
        mag(k, frac) == m * pow2(j as nat),
        mag(k + 1, frac) == (m + 1) * pow2(j as nat),
{
    let top = pow2(frac) as int;
    vstd::arithmetic::power2::lemma_pow2_pos(frac);
    vstd::arithmetic::power2::lemma_pow2_pos(j as nat);
    assert(pow2(0) == 1) by {
        vstd::arithmetic::power2::lemma2_to64();
    }
    lemma_mag_at(k, m, j, frac);
    if m + 1 < 2 * top {
        if j == 0 || m + 1 >= top {
            lemma_mag_at(k + 1, m + 1, j, frac);
        }
    } else {
        assert(m + 1 == 2 * top);
        assert(k + 1 == (j + 1) * top + top) by (nonlinear_arith)
            requires
                k == j * top + m,
                m + 1 == 2 * top,
        ;
        lemma_mag_at(k + 1, top, j + 1, frac);
        vstd::arithmetic::power2::lemma_pow2_unfold((j + 1) as nat);
        assert(top * (2 * pow2(j as nat)) == (2 * top) * pow2(j as nat)) by (nonlinear_arith);
    }
}

proof fn lemma_mag_at(k: int, m: int, j: int, frac: nat)
    requires
        splits(k, m, j, frac),
    ensures
        mag(k, frac) == m * pow2(j as nat),
{
    let top = pow2(frac) as int;
    vstd::arithmetic::power2::lemma_pow2_pos(frac);
    assert(pow2(0) == 1) by {
        vstd::arithmetic::power2::lemma2_to64();
    }
    if m < top {
        assert(j == 0);
        assert(k == m) by (nonlinear_arith)
            requires
                k == j * top + m,
                j == 0,
        ;
        assert(m * pow2(j as nat) == m) by (nonlinear_arith)
            requires
                pow2(j as nat) == 1,
        ;
    } else {
        assert(k == (j + 1) * top + (m - top)) by (nonlinear_arith)
            requires
                k == j * top + m,
        ;
        vstd::arithmetic::div_mod::lemma_fundamental_div_mod_converse(k, top, j + 1, m - top);
        assert(k >= top) by (nonlinear_arith)
            requires
                k == (j + 1) * top + (m - top),
                j >= 0,
                m >= top,
                top > 0,
        ;
        assert((k / top - 1) as nat == j as nat);
        assert(top + k % top == m);
    }
}

/// Every pattern splits.
pub proof fn lemma_split_exists(k: int, frac: nat) -> (r: (int, int))
    requires
        k >= 0,
    ensures
        splits(k, r.0, r.1, frac),
{
    let top = pow2(frac) as int;
    vstd::arithmetic::power2::lemma_pow2_pos(frac);
    if k < top {
        assert(0 * pow2(frac) == 0) by (nonlinear_arith);
        (k, 0)
    } else {
        vstd::arithmetic::div_mod::lemma_fundamental_div_mod(k, top);
        vstd::arithmetic::div_mod::lemma_mod_bound(k, top);
        let e = k / top;
        assert(e >= 1) by (nonlinear_arith)
            requires
                k == top * e + k % top,
                k % top < top,
                k >= top,
                top > 0,
        ;
        assert(k == (e - 1) * top + (top + k % top)) by (nonlinear_arith)
            requires
                k == top * e + k % top,
        ;
        (top + k % top, e - 1)
    }
}

/// Patterns are ordered as their magnitudes are.
pub proof fn lemma_mag_increases(k1: int, k2: int, frac: nat)
    requires
        0 <= k1 < k2,
    ensures
        mag(k1, frac) < mag(k2, frac),
    decreases k2,
{
    let (m, j) = lemma_split_exists(k2 - 1, frac);
    lemma_mag_of_split(k2 - 1, m, j, frac);
    vstd::arithmetic::power2::lemma_pow2_pos(j as nat);
    assert((m + 1) * pow2(j as nat) == m * pow2(j as nat) + pow2(j as nat)) by (nonlinear_arith);
    if k1 < k2 - 1 {
        lemma_mag_increases(k1, k2 - 1, frac);
    }
}

pub proof fn lemma_mag_nonnegative(k: int, frac: nat)
    requires
        0 <= k,
    ensures
        mag(k, frac) >= 0,
        mag(k, frac) == 0 <==> k == 0,
{
    vstd::arithmetic::power2::lemma_pow2_pos(frac);
    assert(mag(0, frac) == 0);
    if k > 0 {
        lemma_mag_increases(0, k, frac);
    }
}

/// A value rounds to one pattern only.
pub proof fn lemma_nearest_unique(k1: int, k2: int, n: int, d: int, frac: nat, inf: int)
    requires
        d > 0,
        is_nearest(k1, n, d, frac, inf),
        is_nearest(k2, n, d, frac, inf),
    ensures
        k1 == k2,
{
    if k1 < k2 {
        lemma_nearest_ordered(k1, k2, n, d, frac, inf);
    } else if k2 < k1 {
        lemma_nearest_ordered(k2, k1, n, d, frac, inf);
    }
}

proof fn lemma_nearest_ordered(k1: int, k2: int, n: int, d: int, frac: nat, inf: int)
    requires
        d > 0,
        is_nearest(k1, n, d, frac, inf),
        k1 < k2,
    ensures
        !is_nearest(k2, n, d, frac, inf),
{
    let low = mag(k1, frac) + mag(k1 + 1, frac);
    let high = mag(k2 - 1, frac) + mag(k2, frac);
    if k1 < k2 - 1 {
        lemma_mag_increases(k1, k2 - 1, frac);
        lemma_mag_increases(k1 + 1, k2, frac);
        assert(low * d < high * d) by (nonlinear_arith)
            requires
                low < high,
                d > 0,
        ;
    } else {
        assert(low * d == high * d);
    }
}

pub proof fn lemma_nearest_is(k: int, n: int, d: int, frac: nat, inf: int)
    requires
        d > 0,
        is_nearest(k, n, d, frac, inf),
    ensures
        nearest(n, d, frac, inf) == k,
{
    lemma_nearest_unique(k, nearest(n, d, frac, inf), n, d, frac, inf);
}

/// The search for the nearest pattern from a pattern that is not too large.
proof fn lemma_nearest_from(k: int, n: int, d: int, frac: nat, inf: int) -> (r: int)
    requires
        0 <= k <= inf,
        k > 0 ==> (mag(k - 1, frac) + mag(k, frac)) * d <= 2 * n,
        k > 0 && (mag(k - 1, frac) + mag(k, frac)) * d == 2 * n ==> k % 2 == 0,
    ensures
        is_nearest(r, n, d, frac, inf),
    decreases inf - k,
{
    let middle = (mag(k, frac) + mag(k + 1, frac)) * d;
    if k == inf || 2 * n < middle || (2 * n == middle && k % 2 == 0) {
        k
    } else {
        lemma_nearest_from(k + 1, n, d, frac, inf)
    }
}

/// Every value rounds to some pattern.
pub proof fn lemma_nearest_exists(n: int, d: int, frac: nat, inf: int)
    requires
        0 <= inf,
    ensures
        is_nearest(nearest(n, d, frac, inf), n, d, frac, inf),
{
    let k = lemma_nearest_from(0, n, d, frac, inf);
    assert(is_nearest(k, n, d, frac, inf));
}

/// Rounding keeps the order of values.
pub proof fn law_rounding_keeps_order(n1: int, d1: int, n2: int, d2: int, frac: nat, inf: int)
    requires
        d1 > 0,
        d2 > 0,
        n1 * d2 <= n2 * d1,
        0 <= inf,
    ensures
        nearest(n1, d1, frac, inf) <= nearest(n2, d2, frac, inf),
{
    let k1 = nearest(n1, d1, frac, inf);
    let k2 = nearest(n2, d2, frac, inf);
    lemma_nearest_exists(n1, d1, frac, inf);
    lemma_nearest_exists(n2, d2, frac, inf);
    if k2 < k1 {
        let a = mag(k2, frac) + mag(k2 + 1, frac);
        let b = mag(k1 - 1, frac) + mag(k1, frac);
        if k2 + 1 < k1 {
            lemma_mag_increases(k2, k1 - 1, frac);
            lemma_mag_increases(k2 + 1, k1, frac);
        }
        assert(b * d1 * d2 <= 2 * n1 * d2) by (nonlinear_arith)
            requires
                b * d1 <= 2 * n1,
                d2 > 0,
        ;
        assert(2 * n2 * d1 <= a * d2 * d1) by (nonlinear_arith)
            requires
                2 * n2 <= a * d2,
                d1 > 0,
        ;
        assert(2 * n1 * d2 <= 2 * n2 * d1) by (nonlinear_arith)
            requires
                n1 * d2 <= n2 * d1,
        ;
        assert(b <= a) by (nonlinear_arith)
            requires
                b * d1 * d2 <= a * d2 * d1,
                d1 > 0,
                d2 > 0,
        ;
        assert(a == b && k1 == k2 + 1);
        assert(b * d1 == 2 * n1) by (nonlinear_arith)
            requires
                b * d1 <= 2 * n1,
                2 * n1 * d2 <= a * d2 * d1,
                a == b,
                d1 > 0,
                d2 > 0,
        ;
        assert(2 * n2 == a * d2) by (nonlinear_arith)
            requires
                2 * n2 <= a * d2,
                b * d1 * d2 <= 2 * n2 * d1,
                a == b,
                d1 > 0,
                d2 > 0,
        ;
    }
}

/// Deciding between a pattern and its successor by the midpoint of the two.
proof fn lemma_rounded(k: int, m: int, j: int, n: int, d: int, up: bool, frac: nat, inf: int)
    requires
        d > 0,
        splits(k, m, j, frac),
        k < inf,
        m * pow2(j as nat) * d <= n,
        n < (m + 1) * pow2(j as nat) * d,
        up ==> (2 * m + 1) * pow2(j as nat) * d <= 2 * n,
        !up ==> 2 * n <= (2 * m + 1) * pow2(j as nat) * d,
        2 * n == (2 * m + 1) * pow2(j as nat) * d ==> (up <==> m % 2 == 1),
        frac >= 1,
    ensures
        is_nearest(if up { k + 1 } else { k }, n, d, frac, inf),
{
    let p = pow2(j as nat) as int;
    vstd::arithmetic::power2::lemma_pow2_pos(j as nat);
    lemma_mag_of_split(k, m, j, frac);
    vstd::arithmetic::power2::lemma_pow2_unfold(frac);
    let half_top = pow2((frac - 1) as nat) as int;
    assert(k % 2 == m % 2) by {
        assert(k == 2 * (j * half_top) + m) by (nonlinear_arith)
            requires
                k == j * pow2(frac) + m,
                pow2(frac) == 2 * half_top,
        ;
    }
    let a = mag(k, frac);
    let b = mag(k + 1, frac);
    assert((a + b) * d == (2 * m + 1) * p * d) by (nonlinear_arith)
        requires
            a == m * p,
            b == (m + 1) * p,
    ;
    if up {
        if k + 1 < inf {
            let c = mag(k + 2, frac);
            lemma_mag_increases(k + 1, k + 2, frac);
            assert((b + c) * d > 2 * (b * d)) by (nonlinear_arith)
                requires
                    c > b,
                    d > 0,
            ;
        }
    } else {
        if k > 0 {
            let z = mag(k - 1, frac);
            lemma_mag_increases(k - 1, k, frac);
            assert((z + a) * d < 2 * (a * d)) by (nonlinear_arith)
                requires
                    z < a,
                    d > 0,
            ;
        }
    }
}

proof fn lemma_shl_one(s: u32)
    requires
        s < 128,
    ensures
        (1u128 << s) == pow2(s as nat),
    decreases s,
{
    if s == 0 {
        assert(1u128 << 0u32 == 1) by (bit_vector);
        vstd::arithmetic::power2::lemma2_to64();
    } else {
        let t: u32 = (s - 1) as u32;
        lemma_shl_one(t);
        vstd::arithmetic::power2::lemma_pow2_unfold(s as nat);
        assert(1u128 << s == 2 * (1u128 << t)) by (bit_vector)
            requires
                0 < s < 128,
                t == s - 1,
        ;
    }
}

/// `2^s`.
pub fn power(s: u32) -> (r: u128)
    requires
        s < 128,
    ensures
        r == pow2(s as nat),
{
    proof {
        lemma_shl_one(s);
    }
    1u128 << s
}

/// One step of `bit_length`: drops `s` bits of `y` where it has more.
fn drop_bits(y: u128, len: u32, s: u32, Ghost(x): Ghost<int>) -> (r: (u128, u32))
    requires
        s <= 64,
        len <= 128,
        y == x / pow2(len as nat) as int,
        x >= 0,
    ensures
        r.1 == len || r.1 == len + s,
        r.0 == x / pow2(r.1 as nat) as int,
        y > 0 ==> r.0 > 0,
        y < pow2((2 * s) as nat) ==> r.0 < pow2(s as nat),
{
    let p: u128 = power(s);
    if y >= p {
        let z: u128 = y >> s;
        proof {
            let ss: u128 = s as u128;
            vstd::bits::lemma_u128_shr_is_div(y, ss);
            assert(y >> s == y >> ss) by (bit_vector)
                requires
                    ss == s as u128,
            ;
            vstd::arithmetic::power2::lemma_pow2_pos(len as nat);
            vstd::arithmetic::power2::lemma_pow2_pos(s as nat);
            vstd::arithmetic::power2::lemma_pow2_adds(len as nat, s as nat);
            vstd::arithmetic::div_mod::lemma_div_denominator(
                x,
                pow2(len as nat) as int,
                pow2(s as nat) as int,
            );
            vstd::arithmetic::power2::lemma_pow2_adds(s as nat, s as nat);
            let q = pow2(s as nat) as int;
            let yy = y as int;
            vstd::arithmetic::div_mod::lemma_fundamental_div_mod(yy, q);
            vstd::arithmetic::div_mod::lemma_mod_bound(yy, q);
            assert(yy / q >= 1) by (nonlinear_arith)
                requires
                    yy == q * (yy / q) + yy % q,
                    yy % q < q,
                    yy >= q,
                    q > 0,
            ;
            if y < pow2((2 * s) as nat) {
                assert(yy / q < q) by (nonlinear_arith)
                    requires
                        yy == q * (yy / q) + yy % q,
                        yy % q >= 0,
                        yy < q * q,
                        q > 0,
                ;
            }
        }
        (z, len + s)
    } else {
        (y, len)
    }
}

/// The position of the highest bit of `x`.
pub fn bit_length(x: u128) -> (r: u32)
    requires
        x > 0,
    ensures
        r < 128,
        pow2(r as nat) <= x < pow2((r + 1) as nat),
{
    proof {
        vstd::arithmetic::power2::lemma2_to64();
        vstd::arithmetic::power2::lemma_pow2_adds(64, 64);
        assert(pow2(128) == 0x1_0000_0000_0000_0000_0000_0000_0000_0000int) by {
            assert(pow2(64) * pow2(64) == 0x1_0000_0000_0000_0000_0000_0000_0000_0000int)
                by (nonlinear_arith)
                requires
                    pow2(64) == 0x1_0000_0000_0000_0000,
            ;
        }
    }
    let (y, len) = drop_bits(x, 0, 64, Ghost(x as int));
    let (y, len) = drop_bits(y, len, 32, Ghost(x as int));
    let (y, len) = drop_bits(y, len, 16, Ghost(x as int));
    let (y, len) = drop_bits(y, len, 8, Ghost(x as int));
    let (y, len) = drop_bits(y, len, 4, Ghost(x as int));
    let (y, len) = drop_bits(y, len, 2, Ghost(x as int));
    let (y, len) = drop_bits(y, len, 1, Ghost(x as int));
    proof {
        assert(y == 1);
        let p = pow2(len as nat) as int;
        vstd::arithmetic::power2::lemma_pow2_pos(len as nat);
        vstd::arithmetic::power2::lemma_pow2_unfold((len + 1) as nat);
        vstd::arithmetic::div_mod::lemma_fundamental_div_mod(x as int, p);
        vstd::arithmetic::div_mod::lemma_mod_bound(x as int, p);
        assert(p * 1 == p);
    }
    len
}

/// Comparing `c * 2^j * d` with `x` is comparing `c * 2^s * u` with `x * 2^pb`.
proof fn lemma_scaled(c: int, j: nat, s: nat, qa: nat, pb: nat, x: int, d: int)
    requires
        j + pb == qa + s,
    ensures
        c * pow2(j) * d <= x <==> c * pow2(s) * (pow2(qa) * d) <= x * pow2(pb),
        c * pow2(j) * d == x <==> c * pow2(s) * (pow2(qa) * d) == x * pow2(pb),
{
    let pj = pow2(j) as int;
    let ps = pow2(s) as int;
    let pq = pow2(qa) as int;
    let pp = pow2(pb) as int;
    vstd::arithmetic::power2::lemma_pow2_adds(j, pb);
    vstd::arithmetic::power2::lemma_pow2_adds(qa, s);
    vstd::arithmetic::power2::lemma_pow2_pos(pb);
    assert(c * ps * (pq * d) == (c * pj * d) * pp) by (nonlinear_arith)
        requires
            pj * pp == pq * ps,
    ;
    let left = c * pj * d;
    assert(left <= x <==> left * pp <= x * pp) by (nonlinear_arith)
        requires
            pp > 0,
    ;
    assert(left == x <==> left * pp == x * pp) by (nonlinear_arith)
        requires
            pp > 0,
    ;
}

/// A value not below the first one out of range rounds to infinity.
proof fn lemma_overflow(n: int, d: int, frac: nat, emax: int)
    requires
        d > 0,
        emax >= 2,
        pow2(frac) * pow2((emax - 1) as nat) * d <= n,
    ensures
        is_nearest(emax * pow2(frac), n, d, frac, emax * pow2(frac)),
{
    let top = pow2(frac) as int;
    let inf = emax * top;
    vstd::arithmetic::power2::lemma_pow2_pos(frac);
    assert(inf == (emax - 1) * top + top) by (nonlinear_arith)
        requires
            inf == emax * top,
    ;
    lemma_mag_of_split(inf, top, emax - 1, frac);
    assert(inf > 0) by (nonlinear_arith)
        requires
            inf == emax * top,
            emax >= 2,
            top > 0,
    ;
    lemma_mag_increases(inf - 1, inf, frac);
    let a = mag(inf - 1, frac);
    let b = mag(inf, frac);
    assert((a + b) * d < 2 * (b * d)) by (nonlinear_arith)
        requires
            a < b,
            d > 0,
    ;
}

/// The conditions under which `sig` and `sticky` describe the value `n / d`: it is `sig * 2^e`,
/// or lies strictly between `sig * 2^e` and `(sig + 1) * 2^e`, where `e == qa - pb`.
pub open spec fn describes(sig: int, sticky: bool, n: int, d: int, qa: nat, pb: nat) -> bool {
    let unit = pow2(qa) * d;
    let value = n * pow2(pb);
    &&& !sticky ==> value == sig * unit
    &&& sticky ==> sig * unit < value < (sig + 1) * unit
}

/// Rounds the value described by `sig`, `e` and `sticky`.
pub fn round_bits(
    sig: u128,
    e: i32,
    sticky: bool,
    frac: u32,
    emax: u32,
    Ghost(n): Ghost<int>,
    Ghost(d): Ghost<int>,
    Ghost(qa): Ghost<nat>,
    Ghost(pb): Ghost<nat>,
) -> (k: u64)
    requires
        1 <= frac <= 52,
        2 <= emax <= 2047,
        d > 0,
        0 < sig < pow2(126),
        sticky ==> sig >= pow2((frac + 1) as nat),
        -8000 <= e <= 8000,
        e == qa - pb,
        describes(sig as int, sticky, n, d, qa, pb),
    ensures
        is_nearest(k as int, n, d, frac as nat, emax * pow2(frac as nat)),
        k <= emax * pow2(frac as nat) <= 2047 * 0x10_0000_0000_0000,
{
    let h: u32 = bit_length(sig);
    proof {
        if h >= 126 {
            if h > 126 {
                vstd::arithmetic::power2::lemma_pow2_strictly_increases(126, h as nat);
            }
        }
        vstd::arithmetic::power2::lemma_pow2_pos(frac as nat);
        vstd::arithmetic::power2::lemma_pow2_pos(qa);
        vstd::arithmetic::power2::lemma_pow2_pos(pb);
        vstd::arithmetic::power2::lemma2_to64();
        vstd::arithmetic::power2::lemma2_to64_rest();
        if frac < 52 {
            vstd::arithmetic::power2::lemma_pow2_strictly_increases(frac as nat, 52);
        }
        assert(pow2(52) == 0x10_0000_0000_0000);
        assert(emax * pow2(frac as nat) <= 2047 * 0x10_0000_0000_0000) by (nonlinear_arith)
            requires
                emax <= 2047,
                pow2(frac as nat) <= 0x10_0000_0000_0000,
        ;
    }
    let top: u64 = power(frac) as u64;
    let reach: i32 = h as i32 + e - frac as i32;
    let j: u32 = if reach > 0 { reach as u32 } else { 0 };
    let s: i32 = j as i32 - e;
    let ghost unit = pow2(qa) * d;
    let ghost value = n * pow2(pb);
    proof {
        assert(unit > 0) by (nonlinear_arith)
            requires
                unit == pow2(qa) * d,
                pow2(qa) > 0,
                d > 0,
        ;
        assert(sig * unit <= value < (sig + 1) * unit) by (nonlinear_arith)
            requires
                unit > 0,
                !sticky ==> value == sig * unit,
                sticky ==> sig * unit < value < (sig + 1) * unit,
        ;
    }
    if j > emax - 2 {
        proof {
            // The leading bit alone is out of range.
            let hq = (j + frac) as nat;
            lemma_scaled(1, hq, h as nat, qa, pb, n, d);
            assert(1 * pow2(h as nat) * unit <= value) by (nonlinear_arith)
                requires
                    pow2(h as nat) <= sig,
                    sig * unit <= value,
                    unit > 0,
            ;
            assert(pow2(hq) * d <= n);
            let eq = (emax - 1) as nat;
            vstd::arithmetic::power2::lemma_pow2_adds(frac as nat, eq);
            if frac + eq < hq {
                vstd::arithmetic::power2::lemma_pow2_strictly_increases(frac as nat + eq, hq);
            }
            assert(pow2(frac as nat) * pow2(eq) * d <= n) by (nonlinear_arith)
                requires
                    pow2(frac as nat) * pow2(eq) <= pow2(hq),
                    pow2(hq) * d <= n,
                    d > 0,
            ;
            lemma_overflow(n, d, frac as nat, emax as int);
            assert(emax as u64 * top == emax * pow2(frac as nat));
        }
        return emax as u64 * top;
    }
    proof {
        assert(j * top <= 2045 * 0x10_0000_0000_0000) by (nonlinear_arith)
            requires
                j <= 2045,
                0 <= top <= 0x10_0000_0000_0000,
        ;
    }
    let base: u64 = j as u64 * top;
    if s <= 0 {
        proof {
            // Every bit fits: the value is a pattern.
            let left = (-s) as nat;
            vstd::arithmetic::power2::lemma_pow2_pos((frac + 1) as nat);
            assert(!sticky) by {
                if sticky {
                    if h < frac + 1 {
                        if h + 1 < frac + 1 {
                            vstd::arithmetic::power2::lemma_pow2_strictly_increases(
                                (h + 1) as nat,
                                (frac + 1) as nat,
                            );
                        }
                    }
                }
            }
            assert(h + left <= frac);
            if h + left < frac {
                vstd::arithmetic::power2::lemma_pow2_strictly_increases(
                    (h + left + 1) as nat,
                    (frac + 1) as nat,
                );
            }
            vstd::arithmetic::power2::lemma_pow2_adds(h as nat, left);
            vstd::arithmetic::power2::lemma_pow2_adds((h + 1) as nat, left);
            vstd::arithmetic::power2::lemma_pow2_pos(left);
            vstd::arithmetic::power2::lemma_pow2_unfold((frac + 1) as nat);
            assert(sig * pow2(left) < pow2((frac + 1) as nat)) by (nonlinear_arith)
                requires
                    sig < pow2((h + 1) as nat),
                    pow2((h + 1 + left) as nat) == pow2((h + 1) as nat) * pow2(left),
                    pow2((h + 1 + left) as nat) <= pow2((frac + 1) as nat),
                    pow2(left) > 0,
            ;
            assert(sig * pow2(left) >= pow2((h + left) as nat)) by (nonlinear_arith)
                requires
                    sig >= pow2(h as nat),
                    pow2((h + left) as nat) == pow2(h as nat) * pow2(left),
                    pow2(left) > 0,
            ;
            assert(left < 128);
        }
        let shift: u128 = power((-s) as u32);
        proof {
            assert(sig * shift < 0x20_0000_0000_0000);
        }
        let m: u128 = sig * shift;
        let k: u64 = base + m as u64;
        proof {
            let left = (-s) as nat;
            assert(splits(k as int, m as int, j as int, frac as nat));
            // value == sig * unit, with qa == j + pb + left
            vstd::arithmetic::power2::lemma_pow2_adds(j as nat, pb);
            vstd::arithmetic::power2::lemma_pow2_adds((j + pb) as nat, left);
            assert((j + pb) as nat + left == qa);
            let pj = pow2(j as nat) as int;
            let pp = pow2(pb) as int;
            let pl = pow2(left) as int;
            assert(n * pp == (m * pj * d) * pp) by (nonlinear_arith)
                requires
                    n * pp == sig * (pow2(qa) * d),
                    pow2(qa) == pj * pp * pl,
                    m == sig * pl,
            ;
            let exact = m * pj * d;
            assert(n == exact) by (nonlinear_arith)
                requires
                    n * pp == exact * pp,
                    pp > 0,
            ;
            vstd::arithmetic::power2::lemma_pow2_pos(j as nat);
            assert(pj * d > 0) by (nonlinear_arith)
                requires
                    pj > 0,
                    d > 0,
            ;
            assert((m + 1) * pj * d == exact + pj * d) by (nonlinear_arith)
                requires
                    exact == m * pj * d,
            ;
            assert((2 * m + 1) * pj * d == 2 * exact + pj * d) by (nonlinear_arith)
                requires
                    exact == m * pj * d,
            ;
            assert(k < emax * pow2(frac as nat)) by (nonlinear_arith)
                requires
                    k == j * top + m,
                    m < 2 * top,
                    j <= emax - 2,
                    top == pow2(frac as nat),
            ;
            lemma_rounded(
                k as int,
                m as int,
                j as int,
                n,
                d,
                false,
                frac as nat,
                emax * pow2(frac as nat),
            );
        }
        return k;
    }
    if s >= 127 {
        proof {
            // Less than half of the smallest positive value.
            assert(j == 0);
            let z = (pb - qa) as nat;
            assert(pow2(0) == 1);
            vstd::arithmetic::power2::lemma_pow2_adds(qa, z);
            vstd::arithmetic::power2::lemma_pow2_unfold(127);
            if z > 127 {
                vstd::arithmetic::power2::lemma_pow2_strictly_increases(127, z);
            }
            let pq = pow2(qa) as int;
            let pz = pow2(z) as int;
            assert(n >= 0) by (nonlinear_arith)
                requires
                    sig * unit <= n * pow2(pb),
                    sig > 0,
                    unit > 0,
                    pow2(pb) > 0,
            ;
            assert(2 * n < d) by (nonlinear_arith)
                requires
                    n * (pq * pz) < (sig + 1) * (pq * d),
                    sig + 1 <= pow2(126),
                    pz >= 2 * pow2(126),
                    pow2(126) > 0,
                    pq > 0,
                    d > 0,
                    n >= 0,
            {
                let t = pow2(126) as int;
                assert(n * (pq * pz) >= n * (pq * (2 * t)));
                assert((sig + 1) * (pq * d) <= t * (pq * d));
                assert(n * (pq * (2 * t)) == (2 * n) * (pq * t));
                assert(t * (pq * d) == d * (pq * t));
                assert(pq * t > 0);
            }
            assert(0 * pow2(frac as nat) + 0 == 0) by (nonlinear_arith);
            assert(splits(0, 0, 0, frac as nat));
            assert(0 * pow2(0) * d == 0) by (nonlinear_arith);
            assert((0 + 1) * pow2(0) * d == d) by (nonlinear_arith)
                requires
                    pow2(0) == 1,
            ;
            assert((2 * 0 + 1) * pow2(0) * d == d) by (nonlinear_arith)
                requires
                    pow2(0) == 1,
            ;
            assert(0 < emax * pow2(frac as nat)) by (nonlinear_arith)
                requires
                    emax >= 2,
                    pow2(frac as nat) > 0,
            ;
            lemma_rounded(0, 0, 0, n, d, false, frac as nat, emax * pow2(frac as nat));
        }
        return 0;
    }
    let whole: u128 = power(s as u32);
    let half: u128 = power((s - 1) as u32);
    proof {
        vstd::arithmetic::power2::lemma_pow2_pos(s as nat);
    }
    let m: u128 = sig / whole;
    let rest: u128 = sig % whole;
    let up: bool = rest > half || (rest == half && (sticky || m % 2 == 1));
    proof {
        let sn = s as nat;
        let w = whole as int;
        vstd::arithmetic::power2::lemma_pow2_unfold(sn);
        vstd::arithmetic::power2::lemma_pow2_pos((sn - 1) as nat);
        vstd::arithmetic::div_mod::lemma_fundamental_div_mod(sig as int, w);
        vstd::arithmetic::div_mod::lemma_mod_bound(sig as int, w);
        let mi = m as int;
        let hf = half as int;
        assert(sig == w * mi + rest);
        // the significand has at most frac + 1 bits
        vstd::arithmetic::power2::lemma_pow2_unfold((frac + 1) as nat);
        let bound = pow2((frac + 1) as nat) as int;
        vstd::arithmetic::power2::lemma_pow2_adds((frac + 1) as nat, sn);
        if h + 1 < frac + 1 + sn {
            vstd::arithmetic::power2::lemma_pow2_strictly_increases(
                (h + 1) as nat,
                (frac + 1) as nat + sn,
            );
        }
        assert(mi < bound) by (nonlinear_arith)
            requires
                w * mi + rest < bound * w,
                rest >= 0,
                w > 0,
        ;
        assert(mi >= 0) by (nonlinear_arith)
            requires
                sig == w * mi + rest,
                0 <= rest < w,
                sig >= 0,
                w > 0,
        ;
        if j > 0 {
            assert(h == frac + sn);
            vstd::arithmetic::power2::lemma_pow2_adds(frac as nat, sn);
            assert(mi >= top) by (nonlinear_arith)
                requires
                    w * mi + rest >= top * w,
                    rest < w,
                    w > 0,
            ;
        }
        assert(splits(base + mi, mi, j as int, frac as nat));
        assert(base + mi < emax * pow2(frac as nat)) by (nonlinear_arith)
            requires
                base == j * top,
                mi < 2 * top,
                j <= emax - 2,
                top == pow2(frac as nat),
        ;
        lemma_scaled(mi, j as nat, sn, qa, pb, n, d);
        lemma_scaled(mi + 1, j as nat, sn, qa, pb, n, d);
        lemma_scaled(2 * mi + 1, j as nat, sn, qa, pb, 2 * n, d);
        assert((2 * n) * pow2(pb) == 2 * value) by (nonlinear_arith)
            requires
                value == n * pow2(pb),
        ;
        assert(mi * w * unit <= sig * unit) by (nonlinear_arith)
            requires
                mi * w <= sig,
                unit > 0,
        ;
        assert(sig + 1 <= (mi + 1) * w) by (nonlinear_arith)
            requires
                sig == w * mi + rest,
                rest < w,
        ;
        assert((sig + 1) * unit <= (mi + 1) * w * unit) by (nonlinear_arith)
            requires
                sig + 1 <= (mi + 1) * w,
                unit > 0,
        ;
        let middle = (2 * mi + 1) * w * unit;
        assert(middle == 2 * ((w * mi + hf) * unit)) by (nonlinear_arith)
            requires
                middle == (2 * mi + 1) * w * unit,
                w == 2 * hf,
        ;
        if rest > hf {
            assert((w * mi + hf) * unit < sig * unit) by (nonlinear_arith)
                requires
                    w * mi + hf < sig,
                    unit > 0,
            ;
        } else if rest == hf {
            assert((w * mi + hf) * unit == sig * unit);
        } else {
            assert((sig + 1) * unit <= (w * mi + hf) * unit) by (nonlinear_arith)
                requires
                    sig + 1 <= w * mi + hf,
                    unit > 0,
            ;
        }
        lemma_rounded(
            base + mi,
            mi,
            j as int,
            n,
            d,
            up,
            frac as nat,
            emax * pow2(frac as nat),
        );
    }
    if up {
        base + m as u64 + 1
    } else {
        base + m as u64
    }
}

} // verus!
