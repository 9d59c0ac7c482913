//! Floating-point numbers written with a fixed number of decimals.

use vstd::prelude::*;
use vstd::arithmetic::power2::pow2;
use vstd::string::*;
use crate::double::{Double, DOUBLE_INFINITY};
use crate::patterns;
use crate::rounding;
use crate::single::Single;
use crate::text;
use crate::text::{decimal, digit_text};

verus! {

/// `10^d`.
pub open spec fn ten_to(d: nat) -> nat
    decreases d,
{
    if d == 0 {
        1
    } else {
        10 * ten_to((d - 1) as nat)
    }
}

/// The integer nearest to `a / b`, halves going to the even one.
pub open spec fn half_even(a: int, b: int) -> int {
    let q = a / b;
    let r = a % b;
    if 2 * r < b || (2 * r == b && q % 2 == 0) {
        q
    } else {
        q + 1
    }
}

/// The magnitude of a finite number in units of the last decimal, rounded once.
pub open spec fn scaled(x: Double, decimals: nat) -> int {
    half_even(x.magnitude() * ten_to(decimals), pow2(1074) as int)
}

/// The last `d` digits of a number, zeros in front included.
pub open spec fn padded(n: nat, d: nat) -> Seq<char>
    decreases d,
{
    if d == 0 {
        Seq::empty()
    } else {
        padded(n / 10, (d - 1) as nat).push(text::digit((n % 10) as int))
    }
}

/// A number of units of the last decimal.
pub open spec fn with_point(n: nat, decimals: nat) -> Seq<char> {
    if decimals == 0 {
        text::spec_decimal(n)
    } else {
        text::spec_decimal(n / ten_to(decimals)) + "."@ + padded(n % ten_to(decimals), decimals)
    }
}

/// A number with a fixed number of decimals: the nearest such number, halves going to the even
/// digit.
pub open spec fn spec_fixed(x: Double, decimals: nat) -> Seq<char> {
    let sign = if x.negative() {
        "-"@
    } else {
        ""@
    };
    if x.nan() {
        "NaN"@
    } else if x.infinite() {
        sign + "inf"@
    } else {
        sign + with_point(scaled(x, decimals) as nat, decimals)
    }
}

/// The number that the first `k` digits write, the highest first.
spec fn value(digits: Seq<u8>, k: int) -> int
    decreases k,
{
    if k <= 0 {
        0
    } else {
        value(digits, k - 1) * 10 + digits[k - 1]
    }
}

/// All digits are digits, and the first one is not zero.
spec fn is_plain(digits: Seq<u8>) -> bool {
    &&& forall|i: int| 0 <= i < digits.len() ==> (#[trigger] digits[i]) < 10
    &&& digits.len() > 0 ==> digits[0] != 0
}

proof fn lemma_value_of_prefix(a: Seq<u8>, b: Seq<u8>, k: int)
    requires
        0 <= k <= a.len(),
        k <= b.len(),
        forall|i: int| 0 <= i < k ==> a[i] == b[i],
    ensures
        value(a, k) == value(b, k),
    decreases k,
{
    if k > 0 {
        lemma_value_of_prefix(a, b, k - 1);
    }
}

proof fn lemma_value_positive(digits: Seq<u8>, k: int)
    requires
        is_plain(digits),
        0 < k <= digits.len(),
    ensures
        value(digits, k) > 0,
    decreases k,
{
    if k > 1 {
        lemma_value_positive(digits, k - 1);
    } else {
        assert(value(digits, 0) == 0);
    }
}

/// The digits of a number, none for zero.
fn digits_of(n: u64) -> (r: Vec<u8>)
    ensures
        is_plain(r@),
        value(r@, r.len() as int) == n,
        n == 0 <==> r.len() == 0,
    decreases n,
{
    if n == 0 {
        return Vec::new();
    }
    let mut digits = digits_of(n / 10);
    let ghost before = digits@;
    digits.push((n % 10) as u8);
    proof {
        lemma_value_of_prefix(before, digits@, before.len() as int);
        if before.len() == 0 {
            assert(n / 10 == 0);
        }
    }
    digits
}

/// Twice the number of the first `k` digits, plus a carry.
fn doubled(digits: &Vec<u8>, k: usize, carry: u8) -> (r: Vec<u8>)
    requires
        is_plain(digits@),
        k <= digits.len(),
        carry <= 1,
    ensures
        is_plain(r@),
        value(r@, r.len() as int) == 2 * value(digits@, k as int) + carry,
        k > 0 ==> r.len() > 0,
    decreases k,
{
    if k == 0 {
        let mut r: Vec<u8> = Vec::new();
        if carry > 0 {
            r.push(carry);
            assert(value(r@, 0) == 0);
        }
        return r;
    }
    assert(digits[k - 1] < 10);
    let total: u8 = 2 * digits[k - 1] + carry;
    let mut r = doubled(digits, k - 1, total / 10);
    let ghost before = r@;
    r.push(total % 10);
    proof {
        lemma_value_of_prefix(before, r@, before.len() as int);
        if before.len() == 0 {
            if k > 1 {
                lemma_value_positive(digits@, k - 1);
            }
            assert(value(before, 0) == 0);
            assert(total / 10 == 0);
        }
    }
    r
}

/// The characters of the first `k` digits.
spec fn characters(digits: Seq<u8>, k: int) -> Seq<char>
    decreases k,
{
    if k <= 0 {
        Seq::empty()
    } else {
        characters(digits, k - 1).push(text::digit(digits[k - 1] as int))
    }
}

proof fn lemma_characters(digits: Seq<u8>, k: int)
    requires
        is_plain(digits),
        0 < k <= digits.len(),
    ensures
        characters(digits, k) == text::spec_decimal(value(digits, k) as nat),
    decreases k,
{
    assert(digits[k - 1] < 10);
    if k == 1 {
        assert(value(digits, 0) == 0);
        assert(characters(digits, 0) =~= Seq::empty());
        assert(characters(digits, 1) =~= seq![text::digit(digits[0] as int)]);
    } else {
        lemma_characters(digits, k - 1);
        lemma_value_positive(digits, k - 1);
    }
}

/// `m * 2^e` in decimal.
fn big_decimal(m: u64, e: u32) -> (r: String)
    ensures
        r@ == text::spec_decimal((m * pow2(e as nat)) as nat),
{
    let mut digits = digits_of(m);
    let mut i: u32 = 0;
    proof {
        vstd::arithmetic::power2::lemma2_to64();
    }
    while i < e
        invariant
            i <= e,
            is_plain(digits@),
            value(digits@, digits.len() as int) == m * pow2(i as nat),
        decreases e - i,
    {
        let count: usize = digits.len();
        digits = doubled(&digits, count, 0);
        proof {
            vstd::arithmetic::power2::lemma_pow2_unfold((i + 1) as nat);
            let p = pow2(i as nat) as int;
            assert(m * (2 * p) == 2 * (m * p)) by (nonlinear_arith);
        }
        i += 1;
    }
    if digits.len() == 0 {
        assert(value(digits@, 0) == 0);
        return decimal(0);
    }
    let mut text = String::new();
    let mut k: usize = 0;
    while k < digits.len()
        invariant
            k <= digits.len(),
            is_plain(digits@),
            text@ == characters(digits@, k as int),
        decreases digits.len() - k,
    {
        let ghost before = text@;
        text.append(digit_text(digits[k] as u64));
        assert(text@ =~= before.push(text::digit(digits[k as int] as int)));
        k += 1;
    }
    proof {
        lemma_characters(digits@, digits.len() as int);
    }
    text
}

/// Scaling both numbers does not change the quotient.
proof fn lemma_half_even_scales(c: int, b: int, s: int)
    requires
        c >= 0,
        b > 0,
        s > 0,
    ensures
        half_even(c * s, b * s) == half_even(c, b),
{
    vstd::arithmetic::div_mod::lemma_fundamental_div_mod(c, b);
    let q = c / b;
    let r = c % b;
    assert(c * s == q * (b * s) + r * s) by (nonlinear_arith)
        requires
            c == b * q + r,
    ;
    assert(0 <= r * s < b * s) by (nonlinear_arith)
        requires
            0 <= r < b,
            s > 0,
    ;
    vstd::arithmetic::div_mod::lemma_fundamental_div_mod_converse(c * s, b * s, q, r * s);
    assert(2 * r < b ==> 2 * (r * s) < b * s) by (nonlinear_arith)
        requires
            s > 0,
    ;
    assert(2 * r > b ==> 2 * (r * s) > b * s) by (nonlinear_arith)
        requires
            s > 0,
    ;
    assert(2 * r == b ==> 2 * (r * s) == b * s) by (nonlinear_arith);
}

/// `c / 2^k` rounded to an integer.
fn rounded_quotient(c: u64, k: u32) -> (r: u64)
    requires
        c < 0x8000_0000_0000_0000,
    ensures
        r == half_even(c as int, pow2(k as nat) as int),
        r <= c + 1,
{
    proof {
        vstd::arithmetic::power2::lemma_pow2_pos(k as nat);
        vstd::arithmetic::power2::lemma2_to64();
        vstd::arithmetic::power2::lemma2_to64_rest();
    }
    if k >= 65 {
        proof {
            vstd::arithmetic::power2::lemma_pow2_strictly_increases(64, k as nat);
            vstd::arithmetic::div_mod::lemma_basic_div(c as int, pow2(k as nat) as int);
            vstd::arithmetic::div_mod::lemma_small_mod(c as nat, pow2(k as nat));
        }
        return 0;
    }
    let b: u128 = rounding::power(k);
    let q: u128 = c as u128 / b;
    let r: u128 = c as u128 % b;
    proof {
        assert(q <= c) by (nonlinear_arith)
            requires
                q == c as u128 / b,
                b > 0,
        ;
        if k < 64 {
            vstd::arithmetic::power2::lemma_pow2_strictly_increases(k as nat, 64);
        }
    }
    if 2 * r < b || (2 * r == b && q % 2 == 0) {
        q as u64
    } else {
        q as u64 + 1
    }
}

/// The last `d` digits of a number, zeros in front included.
fn pad(n: u64, d: u32) -> (r: String)
    ensures
        r@ == padded(n as nat, d as nat),
    decreases d,
{
    if d == 0 {
        return String::new();
    }
    let mut text = pad(n / 10, d - 1);
    let ghost before = text@;
    text.append(digit_text(n % 10));
    assert(text@ =~= before.push(text::digit((n % 10) as int)));
    text
}

fn power_of_ten(d: u32) -> (r: u64)
    requires
        d <= 3,
    ensures
        r == ten_to(d as nat),
        1 <= r <= 1000,
{
    proof {
        reveal_with_fuel(ten_to, 4);
    }
    match d {
        0 => 1,
        1 => 10,
        2 => 100,
        _ => 1000,
    }
}

/// Zeros only.
proof fn lemma_padded_zero(d: nat)
    ensures
        padded(0, d) == Seq::new(d, |i: int| text::digit(0)),
    decreases d,
{
    if d > 0 {
        lemma_padded_zero((d - 1) as nat);
    }
    assert(padded(0, d) =~= Seq::new(d, |i: int| text::digit(0)));
}

/// A number with a fixed number of decimals, three at most.
pub fn fixed(x: Double, decimals: u32) -> (r: String)
    requires
        decimals <= 3,
    ensures
        r@ == spec_fixed(x, decimals as nat),
{
    proof {
        reveal_strlit("");
    }
    if x.is_nan() {
        return "NaN".to_owned();
    }
    let sign = if x.is_negative() {
        "-"
    } else {
        ""
    };
    let pattern: u64 = x.abs().to_bits();
    if pattern == DOUBLE_INFINITY {
        return sign.to_owned().concat("inf");
    }
    let ten: u64 = power_of_ten(decimals);
    proof {
        Double::lemma_format();
    }
    let (m, j) = patterns::split(pattern, 52, 2047);
    proof {
        reveal(Double::magnitude);
        assert(x.magnitude() == m * pow2(j as nat));
    }
    let ghost n = scaled(x, decimals as nat);
    if j >= 1074 {
        let e: u32 = j - 1074;
        proof {
            let big = pow2(1074) as int;
            let rest = pow2(e as nat) as int;
            vstd::arithmetic::power2::lemma_pow2_adds(1074, e as nat);
            vstd::arithmetic::power2::lemma_pow2_pos(1074);
            vstd::arithmetic::power2::lemma_pow2_pos(e as nat);
            let whole = m * rest;
            assert(m * (big * rest) * ten == (whole * ten) * big) by (nonlinear_arith)
                requires
                    whole == m * rest,
            ;
            assert(whole * ten >= 0) by (nonlinear_arith)
                requires
                    whole == m * rest,
                    rest > 0,
                    ten > 0,
                    m >= 0,
            ;
            vstd::arithmetic::div_mod::lemma_fundamental_div_mod_converse(
                (whole * ten) * big,
                big,
                whole * ten,
                0,
            );
            assert(n == whole * ten);
            assert(whole >= 0) by (nonlinear_arith)
                requires
                    whole == m * rest,
                    rest > 0,
                    m >= 0,
            ;
            vstd::arithmetic::div_mod::lemma_fundamental_div_mod_converse(
                n,
                ten as int,
                whole,
                0,
            );
            lemma_padded_zero(decimals as nat);
        }
        let whole = big_decimal(m, e);
        if decimals == 0 {
            return sign.to_owned().concat(whole.as_str());
        }
        return sign.to_owned().concat(whole.as_str()).concat(".").concat(
            pad(0, decimals).as_str(),
        );
    }
    let k: u32 = 1074 - j;
    assert(m * ten < 0x8000_0000_0000_0000) by (nonlinear_arith)
        requires
            m < 0x20_0000_0000_0000,
            ten <= 1000,
    ;
    let units: u64 = rounded_quotient(m * ten, k);
    proof {
        vstd::arithmetic::power2::lemma_pow2_adds(k as nat, j as nat);
        vstd::arithmetic::power2::lemma_pow2_pos(k as nat);
        vstd::arithmetic::power2::lemma_pow2_pos(j as nat);
        let s = pow2(j as nat) as int;
        assert((m * s) * ten == (m * ten) * s) by (nonlinear_arith);
        lemma_half_even_scales(m * ten, pow2(k as nat) as int, s);
        assert(n == units);
    }
    if decimals == 0 {
        assert(units / 1 == units);
        return sign.to_owned().concat(decimal(units).as_str());
    }
    sign.to_owned().concat(decimal(units / ten).as_str()).concat(".").concat(
        pad(units % ten, decimals).as_str(),
    )
}

/// A single-precision number with a fixed number of decimals, three at most.
pub fn fixed_single(x: Single, decimals: u32) -> (r: String)
    requires
        decimals <= 3,
    ensures
        r@ == spec_fixed(x.to_double(), decimals as nat),
{
    fixed(x.to_double(), decimals)
}

/// The value of a decimal digit.
pub open spec fn digit_value(c: char) -> int {
    c as u32 - 48
}

/// The number that the first `k` characters write, a decimal point passed over.
pub open spec fn units_of(s: Seq<char>, k: int) -> int
    decreases k,
{
    if k <= 0 {
        0
    } else if s[k - 1] == '.' {
        units_of(s, k - 1)
    } else {
        10 * units_of(s, k - 1) + digit_value(s[k - 1])
    }
}

proof fn lemma_units_decimal(n: nat)
    ensures
        units_of(text::spec_decimal(n), text::spec_decimal(n).len() as int) == n,
    decreases n,
{
    let s = text::spec_decimal(n);
    reveal_with_fuel(units_of, 2);
    if n < 10 {
        assert(s[0] as u32 == 48 + n);
    } else {
        lemma_units_decimal(n / 10);
        let before = text::spec_decimal(n / 10);
        let k = before.len() as int;
        assert(s[k] as u32 == 48 + n % 10);
        lemma_same_units(before, s, k);
    }
}

proof fn lemma_same_units(a: Seq<char>, b: Seq<char>, k: int)
    requires
        0 <= k <= a.len(),
        k <= b.len(),
        forall|i: int| 0 <= i < k ==> a[i] == b[i],
    ensures
        units_of(a, k) == units_of(b, k),
    decreases k,
{
    if k > 0 {
        lemma_same_units(a, b, k - 1);
        assert(a[k - 1] == b[k - 1]);
    }
}

proof fn lemma_units_padded(before: Seq<char>, n: nat, d: nat)
    requires
        n < ten_to(d),
    ensures
        padded(n, d).len() == d,
        units_of(before + padded(n, d), (before.len() + d) as int) == units_of(
            before,
            before.len() as int,
        ) * ten_to(d) + n,
    decreases d,
{
    if d == 0 {
        assert(before + padded(n, 0) =~= before);
    } else {
        lemma_units_padded(before, n / 10, (d - 1) as nat);
        let s = before + padded(n, d);
        let t = before + padded(n / 10, (d - 1) as nat);
        let k = (before.len() + d) as int;
        assert(s[k - 1] as u32 == 48 + n % 10);
        lemma_same_units(t, s, k - 1);
        let u = units_of(before, before.len() as int);
        let p = ten_to((d - 1) as nat) as int;
        assert(10 * (u * p) == u * (10 * p)) by (nonlinear_arith);
    }
}

/// What is printed of a number with some decimals is, the point passed over, the number of units
/// of the last decimal that is nearest to it: off by no more than half of one.
pub proof fn law_printed_is_nearest(x: Double, decimals: nat)
    requires
        x.is_finite(),
    ensures
        ({
            let shown = with_point(scaled(x, decimals) as nat, decimals);
            let units = units_of(shown, shown.len() as int);
            let exact = x.magnitude() * ten_to(decimals);
            &&& units >= 0
            &&& -pow2(1074) <= 2 * (units * pow2(1074) - exact) <= pow2(1074)
            &&& spec_fixed(x, decimals) == (if x.negative() {
                "-"@
            } else {
                ""@
            }) + shown
        }),
{
    let unit = pow2(1074) as int;
    vstd::arithmetic::power2::lemma_pow2_pos(1074);
    let a = x.magnitude() * ten_to(decimals);
    x.lemma_order(x);
    let p = ten_to(decimals);
    lemma_ten_positive(decimals);
    assert(a >= 0) by (nonlinear_arith)
        requires
            a == x.magnitude() * p,
            x.magnitude() >= 0,
            p > 0,
    ;
    vstd::arithmetic::div_mod::lemma_fundamental_div_mod(a, unit);
    vstd::arithmetic::div_mod::lemma_mod_bound(a, unit);
    vstd::arithmetic::div_mod::lemma_div_pos_is_pos(a, unit);
    let (q, r) = (a / unit, a % unit);
    let n = scaled(x, decimals);
    assert(unit * q == q * unit && (q + 1) * unit == q * unit + unit) by (nonlinear_arith);
    let m = n as nat;
    if decimals == 0 {
        lemma_units_decimal(m);
    } else {
        vstd::arithmetic::div_mod::lemma_fundamental_div_mod(m as int, p as int);
        vstd::arithmetic::div_mod::lemma_mod_bound(m as int, p as int);
        let whole = text::spec_decimal(m / p);
        let head = whole + "."@;
        reveal_strlit(".");
        lemma_units_decimal(m / p);
        lemma_same_units(whole, head, whole.len() as int);
        assert(head[whole.len() as int] == '.');
        assert(units_of(head, head.len() as int) == m / p);
        lemma_units_padded(head, m % p, decimals);
        let w = (m / p) as int;
        assert(w * p == p * w) by (nonlinear_arith);
    }
}

proof fn lemma_ten_positive(d: nat)
    ensures
        ten_to(d) > 0,
    decreases d,
{
    if d > 0 {
        lemma_ten_positive((d - 1) as nat);
    }
}

} // verus!
