//! Arithmetic on the patterns of nonnegative finite values of a binary floating-point format.
//!
//! A format has `frac` fraction bits, exponent fields up to `emax`, and `2^-unit` as its smallest
//! positive value. Every result is the exact result rounded once.

use vstd::prelude::*;
use vstd::arithmetic::power2::pow2;
use crate::rounding;

verus! {

/// The formats that are used here.
pub open spec fn is_format(frac: u32, emax: u32, unit: u32) -> bool {
    &&& 2 <= frac <= 52
    &&& 2 <= emax <= 2047
    &&& 1 <= unit <= 1100
}

/// The pattern of infinity.
pub open spec fn infinity(frac: u32, emax: u32) -> int {
    emax * pow2(frac as nat)
}

pub open spec fn magnitude(k: u64, frac: u32) -> int {
    rounding::mag(k as int, frac as nat)
}

pub open spec fn rounded(n: int, d: int, frac: u32, emax: u32) -> int {
    rounding::nearest(n, d, frac as nat, infinity(frac, emax))
}

pub proof fn lemma_small_powers(frac: u32)
    requires
        2 <= frac <= 52,
    ensures
        4 <= pow2(frac as nat) <= 0x10_0000_0000_0000,
        pow2((frac + 1) as nat) == 2 * pow2(frac as nat),
        pow2(52) == 0x10_0000_0000_0000,
        pow2(0) == 1,
{
    vstd::arithmetic::power2::lemma2_to64();
    vstd::arithmetic::power2::lemma2_to64_rest();
    if frac < 52 {
        vstd::arithmetic::power2::lemma_pow2_strictly_increases(frac as nat, 52);
    }
    if 2 < frac {
        vstd::arithmetic::power2::lemma_pow2_strictly_increases(2, frac as nat);
    }
    vstd::arithmetic::power2::lemma_pow2_unfold((frac + 1) as nat);
}

/// Zero rounds to zero.
pub proof fn lemma_rounded_zero(d: int, frac: u32, emax: u32)
    requires
        2 <= frac <= 52,
        2 <= emax,
        d > 0,
    ensures
        rounded(0, d, frac, emax) == 0,
{
    lemma_small_powers(frac);
    let inf = infinity(frac, emax);
    assert(inf > 0) by (nonlinear_arith)
        requires
            inf == emax * pow2(frac as nat),
            emax >= 2,
            pow2(frac as nat) >= 4,
    ;
    rounding::lemma_mag_nonnegative(0, frac as nat);
    rounding::lemma_mag_nonnegative(1, frac as nat);
    let c = rounding::mag(0, frac as nat) + rounding::mag(1, frac as nat);
    assert(c * d > 0) by (nonlinear_arith)
        requires
            c > 0,
            d > 0,
    ;
    rounding::lemma_nearest_is(0, 0, d, frac as nat, inf);
}

/// The significand and the exponent of a pattern.
pub fn split(k: u64, frac: u32, emax: u32) -> (r: (u64, u32))
    requires
        2 <= frac <= 52,
        2 <= emax <= 2047,
        k < infinity(frac, emax),
    ensures
        rounding::splits(k as int, r.0 as int, r.1 as int, frac as nat),
        r.0 < 0x20_0000_0000_0000,
        r.1 <= emax - 2,
        magnitude(k, frac) == r.0 * pow2(r.1 as nat),
        k > 0 ==> r.0 > 0,
{
    let top: u64 = rounding::power(frac) as u64;
    proof {
        lemma_small_powers(frac);
    }
    if k < top {
        proof {
            assert(0 * pow2(frac as nat) == 0) by (nonlinear_arith);
            rounding::lemma_mag_of_split(k as int, k as int, 0, frac as nat);
        }
        (k, 0)
    } else {
        let field: u64 = k / top;
        let low: u64 = k % top;
        proof {
            vstd::arithmetic::div_mod::lemma_fundamental_div_mod(k as int, top as int);
            vstd::arithmetic::div_mod::lemma_mod_bound(k as int, top as int);
            assert(field >= 1) by (nonlinear_arith)
                requires
                    k == top * field + low,
                    low < top,
                    k >= top,
                    top > 0,
            ;
            assert(field < emax) by (nonlinear_arith)
                requires
                    k == top * field + low,
                    low >= 0,
                    k < emax * top,
                    top > 0,
            ;
            assert(k == (field - 1) * top + (low + top)) by (nonlinear_arith)
                requires
                    k == top * field + low,
            ;
            rounding::lemma_mag_of_split(k as int, low + top, field - 1, frac as nat);
        }
        (low + top, (field - 1) as u32)
    }
}

/// The product of two values.
pub fn product(x: u64, y: u64, frac: u32, emax: u32, unit: u32) -> (k: u64)
    requires
        is_format(frac, emax, unit),
        x < infinity(frac, emax),
        y < infinity(frac, emax),
    ensures
        k == rounded(magnitude(x, frac) * magnitude(y, frac), pow2(unit as nat) as int, frac, emax),
        k <= infinity(frac, emax),
{
    proof {
        lemma_small_powers(frac);
        vstd::arithmetic::power2::lemma_pow2_pos(unit as nat);
        rounding::lemma_mag_nonnegative(0, frac as nat);
        assert(infinity(frac, emax) > 0) by (nonlinear_arith)
            requires
                infinity(frac, emax) == emax * pow2(frac as nat),
                emax >= 2,
                pow2(frac as nat) >= 4,
        ;
    }
    if x == 0 || y == 0 {
        proof {
            assert(magnitude(x, frac) * magnitude(y, frac) == 0) by (nonlinear_arith)
                requires
                    magnitude(x, frac) == 0 || magnitude(y, frac) == 0,
            ;
            lemma_rounded_zero(pow2(unit as nat) as int, frac, emax);
        }
        return 0;
    }
    let (mx, jx) = split(x, frac, emax);
    let (my, jy) = split(y, frac, emax);
    proof {
        assert(0 < mx * my < 0x20_0000_0000_0000int * 0x20_0000_0000_0000int) by (nonlinear_arith)
            requires
                0 < mx < 0x20_0000_0000_0000,
                0 < my < 0x20_0000_0000_0000,
        ;
    }
    let sig: u128 = mx as u128 * my as u128;
    let e: i32 = jx as i32 + jy as i32 - unit as i32;
    let ghost n = magnitude(x, frac) * magnitude(y, frac);
    let ghost d = pow2(unit as nat) as int;
    let ghost qa = (jx + jy) as nat;
    let ghost pb = unit as nat;
    proof {
        vstd::arithmetic::power2::lemma_pow2_adds(jx as nat, jy as nat);
        assert(n == sig * pow2(qa)) by (nonlinear_arith)
            requires
                n == (mx * pow2(jx as nat)) * (my * pow2(jy as nat)),
                sig == mx * my,
                pow2(qa) == pow2(jx as nat) * pow2(jy as nat),
        ;
        assert(n * pow2(pb) == sig * (pow2(qa) * d)) by (nonlinear_arith)
            requires
                n == sig * pow2(qa),
                d == pow2(pb),
        ;
        assert(sig < pow2(126)) by {
            vstd::arithmetic::power2::lemma2_to64_rest();
            vstd::arithmetic::power2::lemma2_to64();
            vstd::arithmetic::power2::lemma_pow2_adds(63, 63);
            assert(pow2(63) * pow2(63) >= 0x20_0000_0000_0000int * 0x20_0000_0000_0000int)
                by (nonlinear_arith)
                requires
                    pow2(63) >= 0x20_0000_0000_0000,
            ;
        }
    }
    let k: u64 = rounding::round_bits(
        sig,
        e,
        false,
        frac,
        emax,
        Ghost(n),
        Ghost(d),
        Ghost(qa),
        Ghost(pb),
    );
    proof {
        rounding::lemma_nearest_is(k as int, n, d, frac as nat, infinity(frac, emax));
    }
    k
}

/// The value `n / d`, given as `(x / y) * 2^e`.
pub fn quotient(
    x: u64,
    y: u64,
    e: i32,
    frac: u32,
    emax: u32,
    Ghost(n): Ghost<int>,
    Ghost(d): Ghost<int>,
    Ghost(qa): Ghost<nat>,
    Ghost(pb): Ghost<nat>,
) -> (k: u64)
    requires
        2 <= frac <= 52,
        2 <= emax <= 2047,
        x > 0,
        y > 0,
        d > 0,
        -4000 <= e <= 4000,
        e == qa - pb,
        n * pow2(pb) * y == x * (pow2(qa) * d),
    ensures
        k == rounded(n, d, frac, emax),
        k <= infinity(frac, emax),
{
    let h: u32 = rounding::bit_length(x as u128);
    proof {
        vstd::arithmetic::power2::lemma2_to64();
        vstd::arithmetic::power2::lemma2_to64_rest();
        if h >= 64 {
            if h > 64 {
                vstd::arithmetic::power2::lemma_pow2_strictly_increases(64, h as nat);
            }
        }
        lemma_small_powers(frac);
    }
    let lift: u32 = 124 - h;
    let shift: u128 = rounding::power(lift);
    proof {
        vstd::arithmetic::power2::lemma_pow2_adds(h as nat, lift as nat);
        vstd::arithmetic::power2::lemma_pow2_adds((h + 1) as nat, lift as nat);
        vstd::arithmetic::power2::lemma_pow2_pos(lift as nat);
        vstd::arithmetic::power2::lemma_pow2_unfold(125);
        vstd::arithmetic::power2::lemma_pow2_unfold(126);
        vstd::arithmetic::power2::lemma_pow2_adds(62, 62);
        assert(pow2(124) == 0x4000_0000_0000_0000int * 0x4000_0000_0000_0000int);
        assert(pow2(124) <= x * shift < pow2(125)) by (nonlinear_arith)
            requires
                pow2(h as nat) <= x < pow2((h + 1) as nat),
                shift == pow2(lift as nat),
                pow2(124) == pow2(h as nat) * pow2(lift as nat),
                pow2(125) == pow2((h + 1) as nat) * pow2(lift as nat),
                pow2(lift as nat) > 0,
        ;
    }
    let num: u128 = x as u128 * shift;
    let q: u128 = num / (y as u128);
    let rest: u128 = num % (y as u128);
    let ghost pb2 = (pb + lift) as nat;
    proof {
        let yi = y as int;
        let qi = q as int;
        vstd::arithmetic::div_mod::lemma_fundamental_div_mod(num as int, yi);
        vstd::arithmetic::div_mod::lemma_mod_bound(num as int, yi);
        assert(num == yi * qi + rest);
        vstd::arithmetic::power2::lemma_pow2_adds(60, 64);
        assert(qi >= 0x800_0000_0000_0000) by (nonlinear_arith)
            requires
                num == yi * qi + rest,
                rest < yi,
                num >= 0x1000_0000_0000_0000int * 0x1_0000_0000_0000_0000int,
                0 < yi < 0x1_0000_0000_0000_0000int,
        ;
        assert(qi <= num) by (nonlinear_arith)
            requires
                num == yi * qi + rest,
                rest >= 0,
                yi >= 1,
                qi >= 0,
        ;
        vstd::arithmetic::power2::lemma_pow2_adds(pb, lift as nat);
        let unit = pow2(qa) * d;
        let value = n * pow2(pb2);
        vstd::arithmetic::power2::lemma_pow2_pos(qa);
        assert(unit > 0) by (nonlinear_arith)
            requires
                unit == pow2(qa) * d,
                pow2(qa) > 0,
                d > 0,
        ;
        assert(value * yi == num * unit) by (nonlinear_arith)
            requires
                value == n * (pow2(pb) * shift),
                n * pow2(pb) * yi == x * unit,
                num == x * shift,
        ;
        if rest == 0 {
            assert(value == qi * unit) by (nonlinear_arith)
                requires
                    value * yi == (yi * qi) * unit,
                    yi > 0,
            ;
        } else {
            assert(qi * unit < value) by (nonlinear_arith)
                requires
                    value * yi == (yi * qi + rest) * unit,
                    rest > 0,
                    unit > 0,
                    yi > 0,
            ;
            assert(value < (qi + 1) * unit) by (nonlinear_arith)
                requires
                    value * yi == (yi * qi + rest) * unit,
                    rest < yi,
                    unit > 0,
                    yi > 0,
            ;
        }
    }
    let k: u64 = rounding::round_bits(
        q,
        e - lift as i32,
        rest != 0,
        frac,
        emax,
        Ghost(n),
        Ghost(d),
        Ghost(qa),
        Ghost(pb2),
    );
    proof {
        rounding::lemma_nearest_is(k as int, n, d, frac as nat, infinity(frac, emax));
    }
    k
}

/// The quotient of a value and a positive one.
pub fn ratio(x: u64, y: u64, frac: u32, emax: u32, unit: u32) -> (k: u64)
    requires
        is_format(frac, emax, unit),
        x < infinity(frac, emax),
        0 < y < infinity(frac, emax),
    ensures
        k == rounded(magnitude(x, frac) * pow2(unit as nat), magnitude(y, frac), frac, emax),
        k <= infinity(frac, emax),
{
    proof {
        lemma_small_powers(frac);
        rounding::lemma_mag_nonnegative(0, frac as nat);
        rounding::lemma_mag_nonnegative(y as int, frac as nat);
        assert(infinity(frac, emax) > 0) by (nonlinear_arith)
            requires
                infinity(frac, emax) == emax * pow2(frac as nat),
                emax >= 2,
                pow2(frac as nat) >= 4,
        ;
    }
    if x == 0 {
        proof {
            assert(magnitude(x, frac) * pow2(unit as nat) == 0) by (nonlinear_arith)
                requires
                    magnitude(x, frac) == 0,
            ;
            lemma_rounded_zero(magnitude(y, frac), frac, emax);
        }
        return 0;
    }
    let (mx, jx) = split(x, frac, emax);
    let (my, jy) = split(y, frac, emax);
    let ghost n = magnitude(x, frac) * pow2(unit as nat);
    let ghost d = magnitude(y, frac);
    let ghost qa = (jx + unit) as nat;
    let ghost pb = jy as nat;
    proof {
        vstd::arithmetic::power2::lemma_pow2_adds(jx as nat, unit as nat);
        assert(n * pow2(pb) * my == mx * (pow2(qa) * d)) by (nonlinear_arith)
            requires
                n == (mx * pow2(jx as nat)) * pow2(unit as nat),
                d == my * pow2(pb),
                pow2(qa) == pow2(jx as nat) * pow2(unit as nat),
        ;
    }
    quotient(
        mx,
        my,
        jx as i32 + unit as i32 - jy as i32,
        frac,
        emax,
        Ghost(n),
        Ghost(d),
        Ghost(qa),
        Ghost(pb),
    )
}

/// Patterns in order have exponents in order.
proof fn lemma_exponents_ordered(x: int, mx: int, jx: int, y: int, my: int, jy: int, frac: nat)
    requires
        rounding::splits(x, mx, jx, frac),
        rounding::splits(y, my, jy, frac),
        y <= x,
    ensures
        jy <= jx,
        jy == jx ==> my <= mx,
{
    let top = pow2(frac) as int;
    vstd::arithmetic::power2::lemma_pow2_pos(frac);
    if jx < jy {
        assert(y > x) by (nonlinear_arith)
            requires
                x == jx * top + mx,
                y == jy * top + my,
                mx < 2 * top,
                my >= top,
                jx + 1 <= jy,
                top > 0,
        ;
    }
    if jx == jy {
        assert(jx * top == jy * top);
    }
}

/// The part of `m * 2^64` that a shift by `gap` bits keeps, and whether it loses any.
fn aligned(m: u64, gap: u32) -> (r: (u128, bool))
    requires
        m < 0x20_0000_0000_0000,
    ensures
        r.1 ==> gap > 64,
        ({
            let rest = m * pow2(64) - r.0 * pow2(gap as nat);
            &&& 0 <= rest < pow2(gap as nat)
            &&& r.1 <==> rest != 0
        }),
{
    let wide: u128 = m as u128 * 0x1_0000_0000_0000_0000;
    let ghost g = pow2(gap as nat) as int;
    proof {
        vstd::arithmetic::power2::lemma2_to64();
        vstd::arithmetic::power2::lemma2_to64_rest();
        vstd::arithmetic::power2::lemma_pow2_pos(gap as nat);
    }
    if gap >= 120 {
        proof {
            vstd::arithmetic::power2::lemma_pow2_adds(64, 56);
            vstd::arithmetic::power2::lemma_pow2_unfold(120);
            assert(pow2(120) == 0x1_0000_0000_0000_0000int * 0x100_0000_0000_0000int);
            if gap > 120 {
                vstd::arithmetic::power2::lemma_pow2_strictly_increases(120, gap as nat);
            }
            assert(0 * g == 0);
        }
        (0, m != 0)
    } else {
        let p: u128 = rounding::power(gap);
        let kept: u128 = wide / p;
        let rest: u128 = wide % p;
        proof {
            vstd::arithmetic::div_mod::lemma_fundamental_div_mod(wide as int, g);
            vstd::arithmetic::div_mod::lemma_mod_bound(wide as int, g);
            assert(kept * g == g * kept) by (nonlinear_arith);
            if gap <= 64 {
                vstd::arithmetic::power2::lemma_pow2_adds((64 - gap) as nat, gap as nat);
                let c = m * pow2((64 - gap) as nat);
                assert(wide == g * c) by (nonlinear_arith)
                    requires
                        wide == m * pow2(64),
                        pow2(64) == pow2((64 - gap) as nat) * g,
                        c == m * pow2((64 - gap) as nat),
                ;
                vstd::arithmetic::div_mod::lemma_fundamental_div_mod_converse(wide as int, g, c, 0);
            }
        }
        (kept, rest != 0)
    }
}

/// The sum of two values.
pub fn sum(x: u64, y: u64, frac: u32, emax: u32) -> (k: u64)
    requires
        is_format(frac, emax, 1),
        x < infinity(frac, emax),
        y < infinity(frac, emax),
    ensures
        k == rounded(magnitude(x, frac) + magnitude(y, frac), 1, frac, emax),
        k <= infinity(frac, emax),
{
    if x < y {
        ordered_sum(y, x, frac, emax)
    } else {
        ordered_sum(x, y, frac, emax)
    }
}

fn ordered_sum(x: u64, y: u64, frac: u32, emax: u32) -> (k: u64)
    requires
        is_format(frac, emax, 1),
        y <= x < infinity(frac, emax),
    ensures
        k == rounded(magnitude(x, frac) + magnitude(y, frac), 1, frac, emax),
        k <= infinity(frac, emax),
{
    proof {
        lemma_small_powers(frac);
        rounding::lemma_mag_nonnegative(0, frac as nat);
    }
    if x == 0 {
        proof {
            lemma_rounded_zero(1, frac, emax);
        }
        return 0;
    }
    let (mx, jx) = split(x, frac, emax);
    let (my, jy) = split(y, frac, emax);
    proof {
        lemma_exponents_ordered(
            x as int,
            mx as int,
            jx as int,
            y as int,
            my as int,
            jy as int,
            frac as nat,
        );
        lemma_aligned_bound(my, (jx - jy) as nat);
    }
    let (kept, sticky) = aligned(my, jx - jy);
    let sig: u128 = mx as u128 * 0x1_0000_0000_0000_0000 + kept;
    let ghost n = magnitude(x, frac) + magnitude(y, frac);
    proof {
        vstd::arithmetic::power2::lemma2_to64();
        vstd::arithmetic::power2::lemma2_to64_rest();
        vstd::arithmetic::power2::lemma_pow2_adds((jx - jy) as nat, jy as nat);
        vstd::arithmetic::power2::lemma_pow2_pos(jy as nat);
        vstd::arithmetic::power2::lemma_pow2_pos(jx as nat);
        vstd::arithmetic::power2::lemma_pow2_adds(63, 63);
        assert(pow2(126) == 0x8000_0000_0000_0000int * 0x8000_0000_0000_0000int);
        let g = pow2((jx - jy) as nat) as int;
        let px = pow2(jx as nat) as int;
        let py = pow2(jy as nat) as int;
        let rest = my * pow2(64) - kept * g;
        let value = n * pow2(64);
        assert(value == sig * px + rest * py) by (nonlinear_arith)
            requires
                n == mx * px + my * py,
                value == n * pow2(64),
                sig == mx * pow2(64) + kept,
                rest == my * pow2(64) - kept * g,
                px == g * py,
        ;
        assert(0 <= rest * py < px) by (nonlinear_arith)
            requires
                0 <= rest < g,
                px == g * py,
                py > 0,
        ;
        assert(rest != 0 ==> rest * py > 0) by (nonlinear_arith)
            requires
                rest >= 0,
                py > 0,
        ;
        assert(rest == 0 ==> rest * py == 0) by (nonlinear_arith);
        assert((sig + 1) * px == sig * px + px) by (nonlinear_arith);
        assert(pow2(jx as nat) * 1 == px);
        if frac < 52 {
            vstd::arithmetic::power2::lemma_pow2_strictly_increases((frac + 1) as nat, 53);
        }
    }
    let k: u64 = rounding::round_bits(
        sig,
        jx as i32 - 64,
        sticky,
        frac,
        emax,
        Ghost(n),
        Ghost(1),
        Ghost(jx as nat),
        Ghost(64),
    );
    proof {
        rounding::lemma_nearest_is(k as int, n, 1, frac as nat, infinity(frac, emax));
    }
    k
}

/// What a shift keeps is no more than what was shifted, and at most half of it where it shifts.
proof fn lemma_aligned_bound(m: u64, gap: nat)
    requires
        m < 0x20_0000_0000_0000,
    ensures
        forall|kept: int|
            #![trigger kept * pow2(gap)]
            0 <= kept && kept * pow2(gap) <= m * pow2(64) ==> {
                &&& kept <= m * pow2(64)
                &&& gap > 0 ==> 2 * kept <= m * pow2(64)
            },
        m * pow2(64) < 0x20_0000_0000_0000int * 0x1_0000_0000_0000_0000int,
{
    vstd::arithmetic::power2::lemma2_to64();
    vstd::arithmetic::power2::lemma2_to64_rest();
    vstd::arithmetic::power2::lemma_pow2_pos(gap);
    let g = pow2(gap) as int;
    if gap > 0 {
        vstd::arithmetic::power2::lemma_pow2_unfold(gap);
        vstd::arithmetic::power2::lemma_pow2_pos((gap - 1) as nat);
    }
    assert forall|kept: int|
        #![trigger kept * pow2(gap)]
        0 <= kept && kept * pow2(gap) <= m * pow2(64) implies {
        &&& kept <= m * pow2(64)
        &&& gap > 0 ==> 2 * kept <= m * pow2(64)
    } by {
        assert(kept <= kept * g) by (nonlinear_arith)
            requires
                kept >= 0,
                g >= 1,
        ;
        if gap > 0 {
            assert(2 * kept <= kept * g) by (nonlinear_arith)
                requires
                    kept >= 0,
                    g >= 2,
            ;
        }
    }
}

/// The difference of a value and a smaller one.
pub fn difference(x: u64, y: u64, frac: u32, emax: u32) -> (k: u64)
    requires
        is_format(frac, emax, 1),
        y < x < infinity(frac, emax),
    ensures
        k == rounded(magnitude(x, frac) - magnitude(y, frac), 1, frac, emax),
        k <= infinity(frac, emax),
{
    proof {
        lemma_small_powers(frac);
    }
    let (mx, jx) = split(x, frac, emax);
    let (my, jy) = split(y, frac, emax);
    proof {
        lemma_exponents_ordered(
            x as int,
            mx as int,
            jx as int,
            y as int,
            my as int,
            jy as int,
            frac as nat,
        );
        lemma_aligned_bound(my, (jx - jy) as nat);
        vstd::arithmetic::power2::lemma2_to64();
        vstd::arithmetic::power2::lemma2_to64_rest();
    }
    let (kept, sticky) = aligned(my, jx - jy);
    let lead: u128 = mx as u128 * 0x1_0000_0000_0000_0000;
    let ghost top = pow2(frac as nat) as int;
    proof {
        if jx == jy {
            assert(jx * top == jy * top);
            assert(mx > my);
            assert(pow2((jx - jy) as nat) == 1);
            assert(kept * 1 == kept);
            assert(lead - kept >= 0x1_0000_0000_0000_0000);
        } else {
            assert(2 * kept <= my * pow2(64));
            assert(lead - kept >= 0x8000_0000_0000_0000);
        }
    }
    let sig: u128 = if sticky {
        lead - kept - 1
    } else {
        lead - kept
    };
    let ghost n = magnitude(x, frac) - magnitude(y, frac);
    proof {
        vstd::arithmetic::power2::lemma_pow2_adds((jx - jy) as nat, jy as nat);
        vstd::arithmetic::power2::lemma_pow2_pos(jy as nat);
        vstd::arithmetic::power2::lemma_pow2_pos(jx as nat);
        vstd::arithmetic::power2::lemma_pow2_adds(63, 63);
        assert(pow2(126) == 0x8000_0000_0000_0000int * 0x8000_0000_0000_0000int);
        let g = pow2((jx - jy) as nat) as int;
        let px = pow2(jx as nat) as int;
        let py = pow2(jy as nat) as int;
        let rest = my * pow2(64) - kept * g;
        let value = n * pow2(64);
        let whole = lead - kept;
        assert(value == whole * px - rest * py) by (nonlinear_arith)
            requires
                n == mx * px - my * py,
                value == n * pow2(64),
                whole == mx * pow2(64) - kept,
                rest == my * pow2(64) - kept * g,
                px == g * py,
        ;
        assert(0 <= rest * py < px) by (nonlinear_arith)
            requires
                0 <= rest < g,
                px == g * py,
                py > 0,
        ;
        assert(rest != 0 ==> rest * py > 0) by (nonlinear_arith)
            requires
                rest >= 0,
                py > 0,
        ;
        assert(rest == 0 ==> rest * py == 0) by (nonlinear_arith);
        assert((whole - 1) * px == whole * px - px) by (nonlinear_arith);
        assert(pow2(jx as nat) * 1 == px);
        if frac < 52 {
            vstd::arithmetic::power2::lemma_pow2_strictly_increases((frac + 1) as nat, 53);
        }
    }
    let k: u64 = rounding::round_bits(
        sig,
        jx as i32 - 64,
        sticky,
        frac,
        emax,
        Ghost(n),
        Ghost(1),
        Ghost(jx as nat),
        Ghost(64),
    );
    proof {
        rounding::lemma_nearest_is(k as int, n, 1, frac as nat, infinity(frac, emax));
    }
    k
}

/// The value `x / y` of two integers.
pub fn fraction(x: u64, y: u64, frac: u32, emax: u32, unit: u32) -> (k: u64)
    requires
        is_format(frac, emax, unit),
        y > 0,
    ensures
        k == rounded(x * pow2(unit as nat), y as int, frac, emax),
        k <= infinity(frac, emax),
{
    proof {
        lemma_small_powers(frac);
        assert(infinity(frac, emax) > 0) by (nonlinear_arith)
            requires
                infinity(frac, emax) == emax * pow2(frac as nat),
                emax >= 2,
                pow2(frac as nat) >= 4,
        ;
    }
    if x == 0 {
        proof {
            assert(x * pow2(unit as nat) == 0) by (nonlinear_arith)
                requires
                    x == 0,
            ;
            lemma_rounded_zero(y as int, frac, emax);
        }
        return 0;
    }
    let ghost n = x * pow2(unit as nat);
    proof {
        assert(n * pow2(0) * y == x * (pow2(unit as nat) * y)) by (nonlinear_arith)
            requires
                n == x * pow2(unit as nat),
                pow2(0) == 1,
        ;
    }
    quotient(
        x,
        y,
        unit as i32,
        frac,
        emax,
        Ghost(n),
        Ghost(y as int),
        Ghost(unit as nat),
        Ghost(0),
    )
}

/// A value of one format in another one, whose smallest positive value is `2^drop` times as large.
pub fn narrowed(x: u64, frac: u32, emax: u32, to_frac: u32, to_emax: u32, drop: u32) -> (k: u64)
    requires
        is_format(frac, emax, 1),
        is_format(to_frac, to_emax, 1),
        drop <= 1100,
        x < infinity(frac, emax),
    ensures
        k == rounded(magnitude(x, frac), pow2(drop as nat) as int, to_frac, to_emax),
        k <= infinity(to_frac, to_emax),
{
    proof {
        lemma_small_powers(frac);
        lemma_small_powers(to_frac);
        vstd::arithmetic::power2::lemma_pow2_pos(drop as nat);
        rounding::lemma_mag_nonnegative(0, frac as nat);
        assert(infinity(to_frac, to_emax) > 0) by (nonlinear_arith)
            requires
                infinity(to_frac, to_emax) == to_emax * pow2(to_frac as nat),
                to_emax >= 2,
                pow2(to_frac as nat) >= 4,
        ;
    }
    if x == 0 {
        proof {
            lemma_rounded_zero(pow2(drop as nat) as int, to_frac, to_emax);
        }
        return 0;
    }
    let (m, j) = split(x, frac, emax);
    let ghost n = magnitude(x, frac);
    let ghost d = pow2(drop as nat) as int;
    proof {
        vstd::arithmetic::power2::lemma2_to64();
        vstd::arithmetic::power2::lemma2_to64_rest();
        vstd::arithmetic::power2::lemma_pow2_strictly_increases(64, 126);
        assert(n * pow2(drop as nat) == m * (pow2(j as nat) * d)) by (nonlinear_arith)
            requires
                n == m * pow2(j as nat),
                d == pow2(drop as nat),
        ;
    }
    let k: u64 = rounding::round_bits(
        m as u128,
        j as i32 - drop as i32,
        false,
        to_frac,
        to_emax,
        Ghost(n),
        Ghost(d),
        Ghost(j as nat),
        Ghost(drop as nat),
    );
    proof {
        rounding::lemma_nearest_is(k as int, n, d, to_frac as nat, infinity(to_frac, to_emax));
    }
    k
}

/// A value of one format in another one, whose smallest positive value is `2^lift` times as small.
pub fn widened(x: u64, frac: u32, emax: u32, to_frac: u32, to_emax: u32, lift: u32) -> (k: u64)
    requires
        is_format(frac, emax, 1),
        is_format(to_frac, to_emax, 1),
        lift <= 1100,
        x < infinity(frac, emax),
    ensures
        k == rounded(magnitude(x, frac) * pow2(lift as nat), 1, to_frac, to_emax),
        k <= infinity(to_frac, to_emax),
{
    proof {
        lemma_small_powers(frac);
        lemma_small_powers(to_frac);
        rounding::lemma_mag_nonnegative(0, frac as nat);
        assert(infinity(to_frac, to_emax) > 0) by (nonlinear_arith)
            requires
                infinity(to_frac, to_emax) == to_emax * pow2(to_frac as nat),
                to_emax >= 2,
                pow2(to_frac as nat) >= 4,
        ;
    }
    if x == 0 {
        proof {
            assert(magnitude(x, frac) * pow2(lift as nat) == 0) by (nonlinear_arith)
                requires
                    magnitude(x, frac) == 0,
            ;
            lemma_rounded_zero(1, to_frac, to_emax);
        }
        return 0;
    }
    let (m, j) = split(x, frac, emax);
    let ghost n = magnitude(x, frac) * pow2(lift as nat);
    proof {
        vstd::arithmetic::power2::lemma2_to64();
        vstd::arithmetic::power2::lemma2_to64_rest();
        vstd::arithmetic::power2::lemma_pow2_strictly_increases(64, 126);
        vstd::arithmetic::power2::lemma_pow2_adds(j as nat, lift as nat);
        assert(n * pow2(0) == m * (pow2((j + lift) as nat) * 1)) by (nonlinear_arith)
            requires
                n == (m * pow2(j as nat)) * pow2(lift as nat),
                pow2((j + lift) as nat) == pow2(j as nat) * pow2(lift as nat),
                pow2(0) == 1,
        ;
    }
    let k: u64 = rounding::round_bits(
        m as u128,
        j as i32 + lift as i32,
        false,
        to_frac,
        to_emax,
        Ghost(n),
        Ghost(1),
        Ghost((j + lift) as nat),
        Ghost(0),
    );
    proof {
        rounding::lemma_nearest_is(k as int, n, 1, to_frac as nat, infinity(to_frac, to_emax));
    }
    k
}

/// The integer below a value, or with `half` the integer nearest to it, halves going up.
pub open spec fn whole(magnitude: int, unit: u32, half: bool) -> int {
    if half {
        (2 * magnitude + pow2(unit as nat)) / (2 * pow2(unit as nat) as int)
    } else {
        magnitude / pow2(unit as nat) as int
    }
}

/// `whole` of a value, cut off at the largest `u64`.
pub fn to_whole(x: u64, frac: u32, emax: u32, unit: u32, half: bool) -> (r: u64)
    requires
        is_format(frac, emax, unit),
        x < infinity(frac, emax),
    ensures
        ({
            let w = whole(magnitude(x, frac), unit, half);
            r == if w <= u64::MAX { w } else { u64::MAX as int }
        }),
{
    let (m, j) = split(x, frac, emax);
    let ghost g = magnitude(x, frac);
    let ghost pu = pow2(unit as nat) as int;
    let ghost pj = pow2(j as nat) as int;
    proof {
        lemma_small_powers(frac);
        vstd::arithmetic::power2::lemma2_to64();
        vstd::arithmetic::power2::lemma2_to64_rest();
        vstd::arithmetic::power2::lemma_pow2_pos(unit as nat);
        vstd::arithmetic::power2::lemma_pow2_pos(j as nat);
    }
    if j >= unit {
        let t: u32 = j - unit;
        let ghost c = m * pow2(t as nat);
        proof {
            vstd::arithmetic::power2::lemma_pow2_adds(t as nat, unit as nat);
            assert(g == pu * c + 0) by (nonlinear_arith)
                requires
                    g == m * pj,
                    pj == pow2(t as nat) * pu,
                    c == m * pow2(t as nat),
            ;
            vstd::arithmetic::div_mod::lemma_fundamental_div_mod_converse(g, pu, c, 0);
            assert(2 * g + pu == (2 * pu) * c + pu) by (nonlinear_arith)
                requires
                    g == pu * c,
            ;
            vstd::arithmetic::div_mod::lemma_fundamental_div_mod_converse(
                2 * g + pu,
                2 * pu,
                c,
                pu,
            );
            assert(whole(g, unit, half) == c);
        }
        if t >= 64 {
            proof {
                if t > 64 {
                    vstd::arithmetic::power2::lemma_pow2_strictly_increases(64, t as nat);
                }
                assert(c >= pow2(64)) by (nonlinear_arith)
                    requires
                        c == m * pow2(t as nat),
                        m >= 1,
                        pow2(t as nat) >= pow2(64),
                        pow2(64) > 0,
                ;
            }
            u64::MAX
        } else {
            proof {
                if t < 64 {
                    vstd::arithmetic::power2::lemma_pow2_strictly_increases(t as nat, 64);
                }
                assert(c < 0x20_0000_0000_0000int * 0x1_0000_0000_0000_0000int) by (nonlinear_arith)
                    requires
                        c == m * pow2(t as nat),
                        m < 0x20_0000_0000_0000,
                        0 < pow2(t as nat) <= 0x1_0000_0000_0000_0000,
                ;
            }
            let w: u128 = m as u128 * rounding::power(t);
            if w <= u64::MAX as u128 {
                w as u64
            } else {
                u64::MAX
            }
        }
    } else {
        let t: u32 = unit - j;
        let ghost pt = pow2(t as nat) as int;
        proof {
            vstd::arithmetic::power2::lemma_pow2_adds(t as nat, j as nat);
            vstd::arithmetic::power2::lemma_pow2_pos(t as nat);
            lemma_common_factor(m as int, pj, pt);
            assert(2 * g + pu == (2 * m + pt) * pj) by (nonlinear_arith)
                requires
                    g == m * pj,
                    pu == pt * pj,
            ;
            assert(2 * pu == (2 * pt) * pj) by (nonlinear_arith)
                requires
                    pu == pt * pj,
            ;
            lemma_common_factor(2 * m + pt, pj, 2 * pt);
        }
        if t >= 64 {
            proof {
                if t > 64 {
                    vstd::arithmetic::power2::lemma_pow2_strictly_increases(64, t as nat);
                }
                vstd::arithmetic::div_mod::lemma_fundamental_div_mod_converse(
                    m as int,
                    pt,
                    0,
                    m as int,
                );
                vstd::arithmetic::div_mod::lemma_fundamental_div_mod_converse(
                    2 * m + pt,
                    2 * pt,
                    0,
                    2 * m + pt,
                );
            }
            0
        } else {
            proof {
                if t < 63 {
                    vstd::arithmetic::power2::lemma_pow2_strictly_increases(t as nat, 63);
                }
            }
            let p: u128 = rounding::power(t);
            if half {
                let w: u128 = (2 * m as u128 + p) / (2 * p);
                proof {
                    assert(w <= 2 * m + pt) by (nonlinear_arith)
                        requires
                            w == (2 * m + pt) / (2 * pt),
                            pt >= 1,
                            m >= 0,
                    ;
                }
                w as u64
            } else {
                let w: u128 = m as u128 / p;
                proof {
                    assert(w <= m) by (nonlinear_arith)
                        requires
                            w == m as int / pt,
                            pt >= 1,
                            m >= 0,
                    ;
                }
                w as u64
            }
        }
    }
}

/// A common factor of the dividend and the divisor cancels.
proof fn lemma_common_factor(a: int, c: int, b: int)
    requires
        b > 0,
        c > 0,
        a >= 0,
    ensures
        (a * c) / (b * c) == a / b,
{
    let q = a / b;
    let r = a % b;
    vstd::arithmetic::div_mod::lemma_fundamental_div_mod(a, b);
    vstd::arithmetic::div_mod::lemma_mod_bound(a, b);
    assert(a * c == q * (b * c) + r * c) by (nonlinear_arith)
        requires
            a == b * q + r,
    ;
    assert(0 <= r * c < b * c) by (nonlinear_arith)
        requires
            0 <= r < b,
            c > 0,
    ;
    vstd::arithmetic::div_mod::lemma_fundamental_div_mod_converse(a * c, b * c, q, r * c);
}

} // verus!
