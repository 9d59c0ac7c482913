//! Square roots of the values of a binary floating-point format.

use vstd::prelude::*;
use vstd::arithmetic::power2::pow2;
use crate::patterns;
use crate::rounding;

verus! {

pub open spec fn square(x: int) -> int {
    x * x
}

/// `k` is the pattern nearest to the square root of `n`.
pub open spec fn is_nearest_root(k: int, n: int, frac: nat, inf: int) -> bool {
    let low = rounding::mag(k - 1, frac) + rounding::mag(k, frac);
    let high = rounding::mag(k, frac) + rounding::mag(k + 1, frac);
    &&& 0 <= k <= inf
    &&& k > 0 ==> square(low) <= 4 * n
    &&& k > 0 && square(low) == 4 * n ==> k % 2 == 0
    &&& k < inf ==> 4 * n <= square(high)
    &&& k < inf && 4 * n == square(high) ==> k % 2 == 0
}

/// The pattern that the square root of `n` rounds to.
pub open spec fn nearest_root(n: int, frac: nat, inf: int) -> int {
    choose|k: int| is_nearest_root(k, n, frac, inf)
}

proof fn lemma_squares_ordered(a: int, b: int)
    requires
        0 <= a < b,
    ensures
        square(a) < square(b),
{
    assert(a * a < b * b) by (nonlinear_arith)
        requires
            0 <= a < b,
    ;
}

proof fn lemma_root_ordered(k1: int, k2: int, n: int, frac: nat, inf: int)
    requires
        is_nearest_root(k1, n, frac, inf),
        k1 < k2,
    ensures
        !is_nearest_root(k2, n, frac, inf),
{
    if k2 <= inf {
        let low = rounding::mag(k1, frac) + rounding::mag(k1 + 1, frac);
        let high = rounding::mag(k2 - 1, frac) + rounding::mag(k2, frac);
        rounding::lemma_mag_nonnegative(k1, frac);
        rounding::lemma_mag_nonnegative(k1 + 1, frac);
        if k1 < k2 - 1 {
            rounding::lemma_mag_increases(k1, k2 - 1, frac);
            rounding::lemma_mag_increases(k1 + 1, k2, frac);
            lemma_squares_ordered(low, high);
        }
    }
}

pub proof fn lemma_nearest_root_is(k: int, n: int, frac: nat, inf: int)
    requires
        is_nearest_root(k, n, frac, inf),
    ensures
        nearest_root(n, frac, inf) == k,
{
    let other = nearest_root(n, frac, inf);
    if k < other {
        lemma_root_ordered(k, other, n, frac, inf);
    } else if other < k {
        lemma_root_ordered(other, k, n, frac, inf);
    }
}

/// The integer square root of a number of 125 or 126 bits.
fn integer_root(x: u128) -> (r: u128)
    requires
        pow2(124) <= x < pow2(126),
    ensures
        pow2(62) <= r < pow2(63),
        r * r <= x < (r + 1) * (r + 1),
{
    proof {
        vstd::arithmetic::power2::lemma2_to64();
        vstd::arithmetic::power2::lemma2_to64_rest();
        vstd::arithmetic::power2::lemma_pow2_adds(62, 62);
        vstd::arithmetic::power2::lemma_pow2_adds(63, 63);
    }
    let mut low: u128 = 0x4000_0000_0000_0000;
    let mut high: u128 = 0x8000_0000_0000_0000;
    while low + 1 < high
        invariant
            0x4000_0000_0000_0000 <= low < high <= 0x8000_0000_0000_0000,
            low * low <= x < high * high,
        decreases high - low,
    {
        let mid: u128 = (low + high) / 2;
        proof {
            assert(mid * mid <= 0x8000_0000_0000_0000int * 0x8000_0000_0000_0000int)
                by (nonlinear_arith)
                requires
                    0 <= mid <= 0x8000_0000_0000_0000,
            ;
        }
        if mid * mid <= x {
            low = mid;
        } else {
            high = mid;
        }
    }
    low
}

/// The exponents of neighbouring patterns differ by one at most.
proof fn lemma_next_exponent(k: int, m: int, j: int, m1: int, j1: int, frac: nat)
    requires
        rounding::splits(k, m, j, frac),
        rounding::splits(k + 1, m1, j1, frac),
    ensures
        j <= j1 <= j + 1,
{
    let top = pow2(frac) as int;
    vstd::arithmetic::power2::lemma_pow2_pos(frac);
    if j1 > j + 1 {
        assert(k + 1 > j * top + 2 * top) by (nonlinear_arith)
            requires
                k + 1 == j1 * top + m1,
                m1 >= top,
                j1 >= j + 2,
                top > 0,
        ;
    }
    if j1 < j {
        assert(k + 1 <= k) by (nonlinear_arith)
            requires
                k == j * top + m,
                k + 1 == j1 * top + m1,
                m >= top,
                m1 < 2 * top,
                j1 + 1 <= j,
                top > 0,
        ;
    }
}

/// A multiple of `2^j` is a multiple of `2^(f + 1)`, and of an even number of `2^f`.
proof fn lemma_even_multiple(m: int, j: nat, f: nat) -> (c: int)
    requires
        j >= f + 1,
    ensures
        m * pow2(j) == (2 * c) * pow2(f),
{
    let g = (j - f - 1) as nat;
    vstd::arithmetic::power2::lemma_pow2_adds(g, f + 1);
    vstd::arithmetic::power2::lemma_pow2_unfold(f + 1);
    let c = m * pow2(g);
    assert(m * pow2(j) == (2 * c) * pow2(f)) by (nonlinear_arith)
        requires
            pow2(j) == pow2(g) * (2 * pow2(f)),
            c == m * pow2(g),
    ;
    c
}

/// The exponent of a pattern whose magnitude is at least `2^(62 + f - 1)`.
proof fn lemma_large_exponent(k: int, m: int, j: int, f: nat, frac: nat)
    requires
        2 <= frac <= 52,
        rounding::splits(k, m, j, frac),
        rounding::mag(k, frac) >= pow2(f + 61),
    ensures
        j >= f + 8,
{
    rounding::lemma_mag_of_split(k, m, j, frac);
    if j < f + 8 {
        vstd::arithmetic::power2::lemma_pow2_adds((j as nat), frac + 1);
        vstd::arithmetic::power2::lemma_pow2_unfold(frac + 1);
        vstd::arithmetic::power2::lemma_pow2_pos(j as nat);
        assert(m * pow2(j as nat) < pow2(frac + 1) * pow2(j as nat)) by (nonlinear_arith)
            requires
                m < pow2(frac + 1),
                pow2(j as nat) > 0,
        ;
        assert(pow2(frac + 1) * pow2(j as nat) == pow2(j as nat) * pow2(frac + 1))
            by (nonlinear_arith);
        if j + frac + 1 < f + 61 {
            vstd::arithmetic::power2::lemma_pow2_strictly_increases(
                (j + frac + 1) as nat,
                f + 61,
            );
        }
    }
}

/// Rounding a number inside the same unit interval as the root is rounding the root.
proof fn lemma_root_by_midpoint(k: int, r: int, n: int, f: nat, frac: nat, inf: int)
    requires
        2 <= frac <= 52,
        pow2(62) <= r,
        square(r * pow2(f)) < n < square((r + 1) * pow2(f)),
        rounding::is_nearest(k, (2 * r + 1) * pow2(f), 2, frac, inf),
    ensures
        is_nearest_root(k, n, frac, inf),
{
    let p = pow2(f) as int;
    vstd::arithmetic::power2::lemma_pow2_pos(f);
    vstd::arithmetic::power2::lemma_pow2_adds(62, f);
    vstd::arithmetic::power2::lemma_pow2_unfold(f + 62);
    vstd::arithmetic::power2::lemma_pow2_pos(62);
    let n2 = (2 * r + 1) * p;
    assert(r * p >= pow2(f + 62)) by (nonlinear_arith)
        requires
            r >= pow2(62),
            pow2(f + 62) == pow2(62) * p,
            p > 0,
    ;
    assert(n2 == 2 * (r * p) + p) by (nonlinear_arith)
        requires
            n2 == (2 * r + 1) * p,
    ;
    if k > 0 {
        let low = rounding::mag(k - 1, frac) + rounding::mag(k, frac);
        rounding::lemma_mag_nonnegative(k - 1, frac);
        rounding::lemma_mag_nonnegative(k, frac);
        assert(low <= n2);
        if low < 2 * pow2(f + 61) {
            lemma_low_square(low, r * p, n);
        } else {
            rounding::lemma_mag_increases(k - 1, k, frac);
            assert(rounding::mag(k, frac) >= pow2(f + 61));
            let (m, j) = rounding::lemma_split_exists(k, frac);
            let (m0, j0) = rounding::lemma_split_exists(k - 1, frac);
            lemma_large_exponent(k, m, j, f, frac);
            lemma_next_exponent(k - 1, m0, j0, m, j, frac);
            rounding::lemma_mag_of_split(k, m, j, frac);
            rounding::lemma_mag_of_split(k - 1, m0, j0, frac);
            let c = lemma_even_multiple(m, j as nat, f);
            let c0 = lemma_even_multiple(m0, j0 as nat, f);
            let t = c + c0;
            assert(low == (2 * t) * p) by (nonlinear_arith)
                requires
                    low == (2 * c0) * p + (2 * c) * p,
                    t == c + c0,
            ;
            assert(2 * t <= 2 * r + 1) by (nonlinear_arith)
                requires
                    (2 * t) * p <= (2 * r + 1) * p,
                    p > 0,
            ;
            assert(low <= 2 * (r * p)) by (nonlinear_arith)
                requires
                    low == (2 * t) * p,
                    t <= r,
                    p > 0,
            ;
            lemma_low_square(low, r * p, n);
        }
    }
    if k < inf {
        let high = rounding::mag(k, frac) + rounding::mag(k + 1, frac);
        rounding::lemma_mag_nonnegative(k, frac);
        assert(high >= n2);
        rounding::lemma_mag_increases(k, k + 1, frac);
        assert(rounding::mag(k + 1, frac) >= pow2(f + 61));
        let (m, j) = rounding::lemma_split_exists(k, frac);
        let (m1, j1) = rounding::lemma_split_exists(k + 1, frac);
        lemma_large_exponent(k + 1, m1, j1, f, frac);
        lemma_next_exponent(k, m, j, m1, j1, frac);
        rounding::lemma_mag_of_split(k, m, j, frac);
        rounding::lemma_mag_of_split(k + 1, m1, j1, frac);
        let c = lemma_even_multiple(m, j as nat, f);
        let c1 = lemma_even_multiple(m1, j1 as nat, f);
        let t = c + c1;
        assert(high == (2 * t) * p) by (nonlinear_arith)
            requires
                high == (2 * c) * p + (2 * c1) * p,
                t == c + c1,
        ;
        assert(2 * t >= 2 * r + 1) by (nonlinear_arith)
            requires
                (2 * t) * p >= (2 * r + 1) * p,
                p > 0,
        ;
        let above = (r + 1) * p;
        assert(high >= 2 * above) by (nonlinear_arith)
            requires
                high == (2 * t) * p,
                t >= r + 1,
                p > 0,
                above == (r + 1) * p,
        ;
        assert(square(high) >= 4 * square(above)) by (nonlinear_arith)
            requires
                high >= 2 * above,
                above >= 0,
                square(high) == high * high,
                square(above) == above * above,
        {
        }
    }
}

proof fn lemma_low_square(low: int, base: int, n: int)
    requires
        0 <= low <= 2 * base,
        square(base) < n,
    ensures
        square(low) < 4 * n,
{
    assert(low * low <= 4 * (base * base)) by (nonlinear_arith)
        requires
            0 <= low <= 2 * base,
    ;
}

/// A root that is an integer multiple of `2^f` is rounded as that number is.
proof fn lemma_exact_root(k: int, a: int, frac: nat, inf: int)
    requires
        0 <= a,
        rounding::is_nearest(k, a, 1, frac, inf),
    ensures
        is_nearest_root(k, square(a), frac, inf),
{
    assert(4 * square(a) == square(2 * a)) by (nonlinear_arith)
        requires
            square(a) == a * a,
            square(2 * a) == (2 * a) * (2 * a),
    ;
    if k > 0 {
        let low = rounding::mag(k - 1, frac) + rounding::mag(k, frac);
        rounding::lemma_mag_nonnegative(k - 1, frac);
        rounding::lemma_mag_nonnegative(k, frac);
        if low < 2 * a {
            lemma_squares_ordered(low, 2 * a);
        }
    }
    if k < inf {
        let high = rounding::mag(k, frac) + rounding::mag(k + 1, frac);
        if 2 * a < high {
            lemma_squares_ordered(2 * a, high);
        }
    }
}

/// The square root of a value.
pub fn root(x: u64, frac: u32, emax: u32, unit: u32) -> (k: u64)
    requires
        patterns::is_format(frac, emax, unit),
        unit >= 130,
        x < patterns::infinity(frac, emax),
    ensures
        k == nearest_root(
            patterns::magnitude(x, frac) * pow2(unit as nat),
            frac as nat,
            patterns::infinity(frac, emax),
        ),
        k <= patterns::infinity(frac, emax),
{
    let ghost inf = patterns::infinity(frac, emax);
    let ghost n = patterns::magnitude(x, frac) * pow2(unit as nat);
    proof {
        patterns::lemma_small_powers(frac);
        rounding::lemma_mag_nonnegative(0, frac as nat);
        rounding::lemma_mag_nonnegative(1, frac as nat);
        assert(inf > 0) by (nonlinear_arith)
            requires
                inf == emax * pow2(frac as nat),
                emax >= 2,
                pow2(frac as nat) >= 4,
        ;
    }
    if x == 0 {
        proof {
            assert(n == 0) by (nonlinear_arith)
                requires
                    n == patterns::magnitude(x, frac) * pow2(unit as nat),
                    patterns::magnitude(x, frac) == 0,
            ;
            let high = rounding::mag(0, frac as nat) + rounding::mag(1, frac as nat);
            lemma_squares_ordered(0, high);
            assert(square(0) == 0);
            assert(is_nearest_root(0, n, frac as nat, inf));
            lemma_nearest_root_is(0, n, frac as nat, inf);
        }
        return 0;
    }
    let (m, j) = patterns::split(x, frac, emax);
    let h: u32 = rounding::bit_length(m as u128);
    proof {
        vstd::arithmetic::power2::lemma2_to64();
        vstd::arithmetic::power2::lemma2_to64_rest();
        if h >= 64 {
            if h > 64 {
                vstd::arithmetic::power2::lemma_pow2_strictly_increases(64, h as nat);
            }
        }
    }
    // Of the two shifts that make 125 or 126 bits, the one that leaves an even exponent.
    let e: u32 = j + unit;
    let even: bool = (e + 124 - h) % 2 == 0;
    let t: u32 = if even {
        124 - h
    } else {
        125 - h
    };
    let f: u32 = (e - t) / 2;
    let shift: u128 = rounding::power(t);
    proof {
        assert((e - t) % 2 == 0) by {
            if even {
                assert((e + 124 - h) % 2 == 0);
            } else {
                assert((e + 124 - h) % 2 == 1);
            }
        }
        assert(e == t + 2 * f);
        vstd::arithmetic::power2::lemma_pow2_adds(h as nat, t as nat);
        vstd::arithmetic::power2::lemma_pow2_adds((h + 1) as nat, t as nat);
        vstd::arithmetic::power2::lemma_pow2_pos(t as nat);
        vstd::arithmetic::power2::lemma_pow2_unfold(125);
        vstd::arithmetic::power2::lemma_pow2_unfold(126);
        vstd::arithmetic::power2::lemma_pow2_adds(63, 63);
        assert(pow2((h + t) as nat) <= m * shift < pow2((h + 1 + t) as nat)) by (nonlinear_arith)
            requires
                pow2(h as nat) <= m < pow2((h + 1) as nat),
                shift == pow2(t as nat),
                pow2((h + t) as nat) == pow2(h as nat) * pow2(t as nat),
                pow2((h + 1 + t) as nat) == pow2((h + 1) as nat) * pow2(t as nat),
                pow2(t as nat) > 0,
        ;
    }
    let wide: u128 = m as u128 * shift;
    let r: u128 = integer_root(wide);
    proof {
        assert(r * r <= wide) by (nonlinear_arith)
            requires
                r * r <= wide,
        ;
    }
    let exact: bool = r * r == wide;
    let ghost p = pow2(f as nat) as int;
    proof {
        vstd::arithmetic::power2::lemma_pow2_pos(f as nat);
        vstd::arithmetic::power2::lemma_pow2_adds(f as nat, f as nat);
        vstd::arithmetic::power2::lemma_pow2_adds(t as nat, (2 * f) as nat);
        vstd::arithmetic::power2::lemma_pow2_adds(j as nat, unit as nat);
        vstd::arithmetic::power2::lemma_pow2_strictly_increases(63, 126);
        assert((f + f) as nat == (2 * f) as nat);
        assert(n == wide * (p * p)) by (nonlinear_arith)
            requires
                n == (m * pow2(j as nat)) * pow2(unit as nat),
                pow2(e as nat) == pow2(j as nat) * pow2(unit as nat),
                pow2(e as nat) == shift * (p * p),
                wide == m * shift,
        ;
        let ri = r as int;
        assert(square(ri * p) == (ri * ri) * (p * p)) by (nonlinear_arith)
            requires
                square(ri * p) == (ri * p) * (ri * p),
        ;
        assert(square((ri + 1) * p) == ((ri + 1) * (ri + 1)) * (p * p)) by (nonlinear_arith)
            requires
                square((ri + 1) * p) == ((ri + 1) * p) * ((ri + 1) * p),
        ;
        assert(p * p > 0) by (nonlinear_arith)
            requires
                p > 0,
        ;
        let wi = wide as int;
        assert(wi * (p * p) < ((ri + 1) * (ri + 1)) * (p * p)) by (nonlinear_arith)
            requires
                wi < (ri + 1) * (ri + 1),
                p * p > 0,
        ;
        if !exact {
            assert((ri * ri) * (p * p) < wi * (p * p)) by (nonlinear_arith)
                requires
                    ri * ri < wi,
                    p * p > 0,
            ;
        }
        if frac < 52 {
            vstd::arithmetic::power2::lemma_pow2_strictly_increases((frac + 1) as nat, 53);
        }
        vstd::arithmetic::power2::lemma_pow2_strictly_increases(53, 62);
    }
    if exact {
        let ghost a = r * p;
        proof {
            assert(a * pow2(0) == r * (p * 1)) by (nonlinear_arith)
                requires
                    a == r * p,
                    pow2(0) == 1,
            ;
            assert(a >= 0) by (nonlinear_arith)
                requires
                    a == r * p,
                    r >= 0,
                    p > 0,
            ;
        }
        let k: u64 = rounding::round_bits(
            r,
            f as i32,
            false,
            frac,
            emax,
            Ghost(a),
            Ghost(1),
            Ghost(f as nat),
            Ghost(0),
        );
        proof {
            lemma_exact_root(k as int, a, frac as nat, inf);
            lemma_nearest_root_is(k as int, n, frac as nat, inf);
        }
        k
    } else {
        let ghost a = (2 * r + 1) * p;
        proof {
            assert(r * (p * 2) < a * pow2(0) < (r + 1) * (p * 2)) by (nonlinear_arith)
                requires
                    a == (2 * r + 1) * p,
                    pow2(0) == 1,
                    p > 0,
            ;
        }
        let k: u64 = rounding::round_bits(
            r,
            f as i32,
            true,
            frac,
            emax,
            Ghost(a),
            Ghost(2),
            Ghost(f as nat),
            Ghost(0),
        );
        proof {
            lemma_root_by_midpoint(k as int, r as int, n, f as nat, frac as nat, inf);
            lemma_nearest_root_is(k as int, n, frac as nat, inf);
        }
        k
    }
}

} // verus!
