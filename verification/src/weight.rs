//! Costs as integer weights, which an optimizer adds up without rounding.

use vstd::prelude::*;
use vstd::arithmetic::power2::pow2;
use crate::assignment;
use crate::bounds;
use crate::double::{Double, DOUBLE_INFINITY};
use crate::patterns;
use crate::rounding;

verus! {

/// The costs as exact numbers, in units of the smallest positive double.
pub open spec fn values(costs: Seq<Seq<Double>>) -> Seq<Seq<int>> {
    costs.map_values(|row: Seq<Double>| row.map_values(|cost: Double| cost.value()))
}

/// No cost is infinite or no number.
pub open spec fn are_finite(costs: Seq<Seq<Double>>) -> bool {
    forall|i: int, j: int|
        0 <= i < costs.len() && 0 <= j < costs[i].len() ==> (#[trigger] costs[i][j]).is_finite()
}

/// The greater of a magnitude and that of a cost, where the cost is finite.
#[verifier::allow_in_spec]
pub fn greater(top: Double, cost: Double) -> Double
    returns
        (if cost.is_finite() && top.less(cost.abs()) {
            cost.abs()
        } else {
            top
        }),
{
    if cost.is_finite() && top.less(cost.abs()) {
        cost.abs()
    } else {
        top
    }
}

/// The greatest finite magnitude of the first `k` costs of a row, and of what came before.
pub open spec fn greatest_of_row(top: Double, row: Seq<Double>, k: int) -> Double
    decreases k,
{
    if k <= 0 {
        top
    } else {
        greater(greatest_of_row(top, row, k - 1), row[k - 1])
    }
}

/// The greatest finite magnitude in the first `k` rows; zero where there is none.
pub open spec fn greatest(costs: Seq<Seq<Double>>, k: int) -> Double
    decreases k,
{
    if k <= 0 {
        Double { bits: 0 }
    } else {
        greatest_of_row(greatest(costs, k - 1), costs[k - 1], costs[k - 1].len() as int)
    }
}

/// The greatest finite magnitude among the costs; zero where there is none.
pub open spec fn largest(costs: Seq<Seq<Double>>) -> Double {
    greatest(costs, costs.len() as int)
}

/// The power of two that the significand of a magnitude counts.
pub open spec fn exponent(top: Double) -> nat {
    if top.pattern() < 0x10_0000_0000_0000 {
        0
    } else {
        (top.pattern() / 0x10_0000_0000_0000 - 1) as nat
    }
}

/// A cost in units of `2^-70` of the unit that the significand of the largest magnitude counts,
/// rounded towards zero. A cost that is not finite weighs more than any that is.
pub open spec fn spec_weight(cost: Double, top: Double) -> int {
    let units = if cost.is_finite() {
        cost.magnitude() * pow2(70) / pow2(exponent(top)) as int
    } else {
        assignment::COST_LIMIT as int
    };
    if !cost.nan() && cost.negative() {
        -units
    } else {
        units
    }
}

/// The weights of costs, in a unit that their largest magnitude gives.
pub open spec fn weights(costs: Seq<Seq<Double>>) -> Seq<Seq<int>> {
    costs.map_values(
        |row: Seq<Double>| row.map_values(|cost: Double| spec_weight(cost, largest(costs))),
    )
}

/// `columns` gives each row a column of its own, and no other choice weighs less. Of finite costs:
/// no other choice costs less by more than a rounding, `2^-121` of the largest magnitude for each
/// row.
pub open spec fn is_least(costs: Seq<Seq<Double>>, columns: Seq<usize>) -> bool {
    let n = costs.len() as int;
    &&& assignment::is_minimal(weights(costs), columns)
    &&& are_finite(costs) ==> forall|other: Seq<usize>|
        assignment::is_permutation(other, n) ==> assignment::total_cost(values(costs), columns, n)
            * pow2(121) <= #[trigger] assignment::total_cost(values(costs), other, n) * pow2(121)
            + n * largest(costs).magnitude()
}

/// What is known of the greatest magnitude of a part of a row.
proof fn lemma_greatest_of_row(top: Double, row: Seq<Double>, k: int)
    requires
        0 <= k <= row.len(),
        top.pattern() < DOUBLE_INFINITY,
        !top.negative(),
    ensures
        ({
            let r = greatest_of_row(top, row, k);
            &&& !r.negative()
            &&& r.pattern() < DOUBLE_INFINITY
            &&& top.pattern() <= r.pattern()
            &&& forall|j: int|
                0 <= j < k && (#[trigger] row[j]).is_finite() ==> row[j].pattern() <= r.pattern()
            &&& r == top || exists|j: int|
                0 <= j < k && (#[trigger] row[j]).is_finite() && row[j].pattern() == r.pattern()
        }),
    decreases k,
{
    if k > 0 {
        lemma_greatest_of_row(top, row, k - 1);
        let before = greatest_of_row(top, row, k - 1);
        let cost = row[k - 1];
        before.lemma_order(cost.abs());
        assert(cost.is_finite() ==> cost.abs().pattern() == cost.pattern());
    }
}

/// What is known of the greatest magnitude of some rows.
pub(crate) proof fn lemma_greatest(costs: Seq<Seq<Double>>, k: int)
    requires
        0 <= k <= costs.len(),
    ensures
        ({
            let r = greatest(costs, k);
            &&& !r.negative()
            &&& r.pattern() < DOUBLE_INFINITY
            &&& forall|i: int, j: int|
                0 <= i < k && 0 <= j < costs[i].len() && (#[trigger] costs[i][j]).is_finite()
                    ==> costs[i][j].pattern() <= r.pattern()
            &&& r.pattern() == 0 || exists|i: int, j: int|
                0 <= i < k && 0 <= j < costs[i].len() && (#[trigger] costs[i][j]).is_finite()
                    && costs[i][j].pattern() == r.pattern()
        }),
    decreases k,
{
    if k > 0 {
        lemma_greatest(costs, k - 1);
        let before = greatest(costs, k - 1);
        let row = costs[k - 1];
        let r = greatest(costs, k);
        lemma_greatest_of_row(before, row, row.len() as int);
        if r == before {
            if before.pattern() != 0 {
                let (i, j) = choose|i: int, j: int|
                    0 <= i < k - 1 && 0 <= j < costs[i].len() && (
                    #[trigger] costs[i][j]).is_finite() && costs[i][j].pattern()
                        == before.pattern();
                assert(costs[i][j].is_finite());
            }
        } else {
            let j = choose|j: int|
                0 <= j < row.len() && (#[trigger] row[j]).is_finite() && row[j].pattern()
                    == r.pattern();
            assert(costs[k - 1][j].is_finite());
        }
    }
}

/// Where the rows and the columns of a matrix stand in another order, its largest magnitude is the
/// same.
proof fn lemma_largest_reordered(
    costs: Seq<Seq<Double>>,
    other: Seq<Seq<Double>>,
    rows: Seq<usize>,
    back: Seq<usize>,
    columns: Seq<usize>,
    homes: Seq<usize>,
    n: int,
)
    requires
        costs.len() == n,
        other.len() == n,
        forall|i: int| 0 <= i < n ==> (#[trigger] costs[i]).len() == n,
        forall|i: int| 0 <= i < n ==> (#[trigger] other[i]).len() == n,
        assignment::undoes(back, rows, n),
        assignment::undoes(homes, columns, n),
        forall|i: int, j: int|
            0 <= i < n && 0 <= j < n ==> #[trigger] other[i][j]
                == costs[rows[i] as int][columns[j] as int],
    ensures
        largest(other) == largest(costs),
{
    lemma_greatest(costs, n);
    lemma_greatest(other, n);
    let a = largest(costs);
    let b = largest(other);
    if a.pattern() != 0 {
        let (i, j) = choose|i: int, j: int|
            0 <= i < n && 0 <= j < costs[i].len() && (#[trigger] costs[i][j]).is_finite()
                && costs[i][j].pattern() == a.pattern();
        let x = back[i] as int;
        let y = homes[j] as int;
        assert(rows[x] == i && columns[y] == j);
        assert(other[x][y] == costs[i][j]);
    }
    if b.pattern() != 0 {
        let (i, j) = choose|i: int, j: int|
            0 <= i < n && 0 <= j < other[i].len() && (#[trigger] other[i][j]).is_finite()
                && other[i][j].pattern() == b.pattern();
        assert(rows[i] < n && columns[j] < n);
        assert(costs[rows[i] as int][columns[j] as int].is_finite());
    }
    assert(a.pattern() == b.pattern());
}

/// The exponent of a magnitude is that of its split.
proof fn lemma_exponent(top: Double, m: int, j: int)
    requires
        rounding::splits(top.pattern() as int, m, j, 52),
    ensures
        exponent(top) == j,
{
    patterns::lemma_small_powers(52);
    let unit = 0x10_0000_0000_0000int;
    let k = top.pattern() as int;
    assert(k == j * unit + m);
    if k < unit {
        assert(j == 0) by (nonlinear_arith)
            requires
                k == j * unit + m,
                k < unit,
                unit > 0,
                j >= 0,
                j == 0 || m >= unit,
        ;
    } else if m >= unit {
        assert(k == (j + 1) * unit + (m - unit)) by (nonlinear_arith)
            requires
                k == j * unit + m,
        ;
        vstd::arithmetic::div_mod::lemma_fundamental_div_mod_converse(k, unit, j + 1, m - unit);
    }
}

/// `2^70` times `m` times a power of two, over another one, where that is no less.
proof fn lemma_shifted_up(m: int, j: nat, e: nat)
    requires
        m >= 0,
        j <= e <= j + 70,
    ensures
        m * pow2(j) * pow2(70) / pow2(e) as int == m * pow2((70 + j - e) as nat),
{
    let up = (70 + j - e) as nat;
    vstd::arithmetic::power2::lemma_pow2_pos(e);
    vstd::arithmetic::power2::lemma_pow2_adds(j, 70);
    vstd::arithmetic::power2::lemma_pow2_adds(up, e);
    let d = pow2(e) as int;
    let q = m * pow2(up);
    assert(m * pow2(j) * pow2(70) == q * d) by (nonlinear_arith)
        requires
            pow2(j) * pow2(70) == pow2(up) * pow2(e),
            d == pow2(e),
            q == m * pow2(up),
    ;
    vstd::arithmetic::div_mod::lemma_div_by_multiple(q, d);
}

proof fn lemma_shifted_down(m: int, j: nat, e: nat)
    requires
        m >= 0,
        j + 70 < e,
    ensures
        m * pow2(j) * pow2(70) / pow2(e) as int == m / pow2((e - j - 70) as nat) as int,
{
    let down = (e - j - 70) as nat;
    vstd::arithmetic::power2::lemma_pow2_pos(down);
    vstd::arithmetic::power2::lemma_pow2_pos(j + 70);
    vstd::arithmetic::power2::lemma_pow2_adds(j, 70);
    vstd::arithmetic::power2::lemma_pow2_adds(j + 70, down);
    let c = pow2(j + 70) as int;
    let d = pow2(down) as int;
    assert(m * pow2(j) * pow2(70) == c * m) by (nonlinear_arith)
        requires
            c == pow2(j) * pow2(70),
    ;
    vstd::arithmetic::div_mod::lemma_div_denominator(c * m, c, d);
    vstd::arithmetic::div_mod::lemma_div_multiples_vanish(m, c);
    vstd::arithmetic::mul::lemma_mul_is_commutative(c, m);
}

/// The weight of a cost, no part of which is more than the largest magnitude.
pub fn weight(cost: Double, top: Double) -> (r: i128)
    requires
        top.is_finite(),
        cost.is_finite() ==> cost.pattern() <= top.pattern(),
    ensures
        r == spec_weight(cost, top),
        -assignment::COST_LIMIT <= r <= assignment::COST_LIMIT,
{
    let units: i128 = if cost.is_finite() {
        proof {
            Double::lemma_format();
        }
        let (m, j) = patterns::split(cost.abs().to_bits(), 52, 2047);
        let (most, e) = patterns::split(top.abs().to_bits(), 52, 2047);
        proof {
            reveal(Double::magnitude);
            assert(cost.abs().to_bits() == cost.pattern());
            assert(top.abs().to_bits() == top.pattern());
            lemma_exponent(cost, m as int, j as int);
            lemma_exponent(top, most as int, e as int);
            assert(j <= e);
            vstd::arithmetic::power2::lemma2_to64();
            vstd::arithmetic::power2::lemma2_to64_rest();
            vstd::arithmetic::power2::lemma_pow2_adds(35, 35);
        }
        if e - j <= 70 {
            let up: u128 = rounding::power(70 - (e - j));
            proof {
                lemma_shifted_up(m as int, j as nat, e as nat);
                if e > j {
                    vstd::arithmetic::power2::lemma_pow2_strictly_increases(
                        (70 - (e - j)) as nat,
                        70,
                    );
                }
                assert(0 <= m * up < 0x20_0000_0000_0000 * 0x40_0000_0000_0000_0000)
                    by (nonlinear_arith)
                    requires
                        m < 0x20_0000_0000_0000,
                        up <= 0x40_0000_0000_0000_0000,
                ;
            }
            (m as u128 * up) as i128
        } else {
            let down: u32 = e - j - 70;
            proof {
                lemma_shifted_down(m as int, j as nat, e as nat);
                vstd::arithmetic::power2::lemma_pow2_pos(down as nat);
            }
            if down < 64 {
                let d: u128 = rounding::power(down);
                let q: u128 = m as u128 / d;
                proof {
                    assert(q <= m) by {
                        vstd::arithmetic::div_mod::lemma_div_is_ordered_by_denominator(
                            m as int,
                            1,
                            d as int,
                        );
                    }
                }
                q as i128
            } else {
                proof {
                    if down > 64 {
                        vstd::arithmetic::power2::lemma_pow2_strictly_increases(64, down as nat);
                    }
                    vstd::arithmetic::div_mod::lemma_basic_div(m as int, pow2(down as nat) as int);
                }
                0
            }
        }
    } else {
        assignment::COST_LIMIT
    };
    if !cost.is_nan() && cost.is_negative() {
        -units
    } else {
        units
    }
}

/// A weight is a cost but for less than a unit, and nothing is lost where the largest magnitude
/// counts the smallest positive value.
proof fn lemma_weight_near(cost: Double, top: Double)
    requires
        cost.is_finite(),
    ensures
        -(pow2(exponent(top)) as int) <= spec_weight(cost, top) * pow2(exponent(top)) - cost.value()
            * pow2(70) <= pow2(exponent(top)),
        exponent(top) == 0 ==> spec_weight(cost, top) == cost.value() * pow2(70),
{
    let d = pow2(exponent(top)) as int;
    let x = cost.magnitude() * pow2(70);
    vstd::arithmetic::power2::lemma_pow2_pos(exponent(top));
    vstd::arithmetic::div_mod::lemma_fundamental_div_mod(x, d);
    vstd::arithmetic::div_mod::lemma_mod_bound(x, d);
    let q = x / d;
    assert(d * q == q * d) by (nonlinear_arith);
    assert((-q) * d == -(q * d)) by (nonlinear_arith);
    assert((-cost.magnitude()) * pow2(70) == -x) by (nonlinear_arith)
        requires
            x == cost.magnitude() * pow2(70),
    ;
    if exponent(top) == 0 {
        vstd::arithmetic::power2::lemma2_to64();
        assert(d == 1);
        assert(q == x);
    }
}

/// The total weight of some rows is their total cost but for less than a unit for each.
proof fn lemma_totals_near(costs: Seq<Seq<Double>>, a: Seq<usize>, k: int)
    requires
        are_finite(costs),
        forall|i: int| 0 <= i < costs.len() ==> (#[trigger] costs[i]).len() == costs.len(),
        assignment::is_permutation(a, costs.len() as int),
        0 <= k <= costs.len(),
    ensures
        ({
            let d = pow2(exponent(largest(costs))) as int;
            let w = assignment::total_cost(weights(costs), a, k);
            let v = assignment::total_cost(values(costs), a, k);
            &&& -(k * d) <= w * d - v * pow2(70) <= k * d
            &&& d == 1 ==> w == v * pow2(70)
        }),
    decreases k,
{
    let top = largest(costs);
    let d = pow2(exponent(top)) as int;
    let s = pow2(70) as int;
    if k > 0 {
        lemma_totals_near(costs, a, k - 1);
        let cost = costs[k - 1][a[k - 1] as int];
        assert(a[k - 1] < costs.len());
        assert(cost.is_finite());
        lemma_weight_near(cost, top);
        assert(weights(costs)[k - 1][a[k - 1] as int] == spec_weight(cost, top));
        assert(values(costs)[k - 1][a[k - 1] as int] == cost.value());
        let w = assignment::total_cost(weights(costs), a, k - 1);
        let v = assignment::total_cost(values(costs), a, k - 1);
        let x = spec_weight(cost, top);
        let y = cost.value();
        assert((w + x) * d == w * d + x * d) by (nonlinear_arith);
        assert((v + y) * s == v * s + y * s) by (nonlinear_arith);
        assert(k * d == (k - 1) * d + d) by (nonlinear_arith);
        if d == 1 {
            if exponent(top) > 0 {
                vstd::arithmetic::power2::lemma_pow2_strictly_increases(0, exponent(top));
                vstd::arithmetic::power2::lemma2_to64();
            }
        }
    } else {
        assert(0 * d == 0 && 0 * s == 0) by (nonlinear_arith);
    }
}

/// The significand of a magnitude that counts more than the smallest positive value is large.
proof fn lemma_significand(top: Double)
    requires
        !top.negative(),
        exponent(top) > 0,
    ensures
        pow2(52) * pow2(exponent(top)) <= top.magnitude(),
{
    reveal(Double::magnitude);
    patterns::lemma_small_powers(52);
    let (m, j) = rounding::lemma_split_exists(top.pattern() as int, 52);
    lemma_exponent(top, m, j);
    rounding::lemma_mag_of_split(top.pattern() as int, m, j, 52);
    assert(pow2(52) * pow2(j as nat) <= m * pow2(j as nat)) by (nonlinear_arith)
        requires
            pow2(52) <= m,
    ;
}

/// What weighs least costs least, but for a rounding.
pub(crate) proof fn lemma_least(costs: Seq<Seq<Double>>, columns: Seq<usize>)
    requires
        forall|i: int| 0 <= i < costs.len() ==> (#[trigger] costs[i]).len() == costs.len(),
        assignment::is_minimal(weights(costs), columns),
    ensures
        is_least(costs, columns),
{
    let n = costs.len() as int;
    let top = largest(costs);
    let d = pow2(exponent(top)) as int;
    let s = pow2(70) as int;
    assert(weights(costs).len() == n);
    lemma_greatest(costs, n);
    top.lemma_order(top);
    if are_finite(costs) {
        assert forall|other: Seq<usize>| assignment::is_permutation(other, n) implies
            assignment::total_cost(values(costs), columns, n) * pow2(121)
            <= #[trigger] assignment::total_cost(values(costs), other, n) * pow2(121) + n
            * top.magnitude() by {
            lemma_totals_near(costs, columns, n);
            lemma_totals_near(costs, other, n);
            let w1 = assignment::total_cost(weights(costs), columns, n);
            let v1 = assignment::total_cost(values(costs), columns, n);
            let w2 = assignment::total_cost(weights(costs), other, n);
            let v2 = assignment::total_cost(values(costs), other, n);
            vstd::arithmetic::power2::lemma_pow2_adds(70, 51);
            vstd::arithmetic::power2::lemma_pow2_unfold(52);
            vstd::arithmetic::power2::lemma_pow2_pos(70);
            vstd::arithmetic::power2::lemma_pow2_pos(51);
            vstd::arithmetic::power2::lemma_pow2_pos(exponent(top));
            let h = pow2(51) as int;
            let g = top.magnitude();
            assert(w1 <= w2);
            if exponent(top) == 0 {
                vstd::arithmetic::power2::lemma2_to64();
                assert(v1 <= v2) by (nonlinear_arith)
                    requires
                        v1 * s <= v2 * s,
                        s > 0,
                ;
                assert(v1 * pow2(121) <= v2 * pow2(121) + n * g) by (nonlinear_arith)
                    requires
                        v1 <= v2,
                        pow2(121) >= 0,
                        n >= 0,
                        g >= 0,
                ;
            } else {
                lemma_significand(top);
                assert(w1 * d <= w2 * d) by (nonlinear_arith)
                    requires
                        w1 <= w2,
                        d > 0,
                ;
                assert(v1 * s <= v2 * s + 2 * (n * d));
                assert(v1 * pow2(121) <= v2 * pow2(121) + n * (2 * h * d)) by (nonlinear_arith)
                    requires
                        v1 * s <= v2 * s + 2 * (n * d),
                        pow2(121) == s * h,
                        h > 0,
                ;
                assert(n * (2 * h * d) <= n * g) by (nonlinear_arith)
                    requires
                        2 * h * d <= g,
                        n >= 0,
                ;
            }
        }
    }
}

/// The order of rows and columns does not matter: where those of a matrix stand in another order, a
/// choice that costs least, put in that order, costs least.
pub proof fn law_order_of_costs(
    costs: Seq<Seq<Double>>,
    a: Seq<usize>,
    other: Seq<Seq<Double>>,
    b: Seq<usize>,
    rows: Seq<usize>,
    back: Seq<usize>,
    columns: Seq<usize>,
    homes: Seq<usize>,
)
    requires
        is_least(costs, a),
        costs.len() == other.len(),
        forall|i: int| 0 <= i < costs.len() ==> (#[trigger] costs[i]).len() == costs.len(),
        forall|i: int| 0 <= i < other.len() ==> (#[trigger] other[i]).len() == other.len(),
        assignment::undoes(back, rows, costs.len() as int),
        assignment::undoes(homes, columns, costs.len() as int),
        assignment::is_permutation(b, costs.len() as int),
        forall|i: int, j: int|
            0 <= i < costs.len() && 0 <= j < costs.len() ==> #[trigger] other[i][j]
                == costs[rows[i] as int][columns[j] as int],
        forall|i: int|
            0 <= i < costs.len() ==> columns[(#[trigger] b[i]) as int] == a[rows[i] as int],
    ensures
        is_least(other, b),
{
    let n = costs.len() as int;
    lemma_largest_reordered(costs, other, rows, back, columns, homes, n);
    assert(assignment::is_permutation(columns, n)) by {
        assert forall|i: int, j: int| 0 <= i < j < n implies columns[i] != columns[j] by {
            assert(homes[columns[i] as int] == i);
            assert(homes[columns[j] as int] == j);
        }
    }
    let weighed = weights(costs);
    let weighed_other = weights(other);
    assert forall|i: int, j: int| 0 <= i < n && 0 <= j < n implies #[trigger] weighed_other[i][j]
        == weighed[rows[i] as int][columns[j] as int] by {
        assert(weighed_other[i][j] == spec_weight(other[i][j], largest(other)));
        assert(rows[i] < n && columns[j] < n);
    }
    assignment::law_order_of_rows_and_columns(weighed, a, weighed_other, b, rows, back, columns);
    lemma_least(other, b);
}

/// Of a row and a column that may be matched or left, where leaving either has its price, the
/// match is made where it costs no more than ten sevenths of one of the prices.
pub(crate) proof fn lemma_match_is_cheaper(
    costs: Seq<Seq<Double>>,
    columns: Seq<usize>,
    cost: Double,
    price: Double,
)
    requires
        costs == seq![seq![cost, price], seq![price, Double { bits: 0 }]],
        is_least(costs, columns),
        !cost.nan(),
        cost.negative() || cost.is_finite(),
        cost.value() <= 10 * bounds::eighth(),
        price.is_finite(),
        price.value() >= 7 * bounds::eighth(),
    ensures
        columns[0] == 0,
{
    let zero = Double { bits: 0 };
    let together: Seq<usize> = seq![0, 1];
    let top = largest(costs);
    let e = bounds::eighth();
    vstd::arithmetic::power2::lemma_pow2_pos(1071);
    vstd::arithmetic::power2::lemma_pow2_pos(exponent(top));
    assert(costs.len() == 2 && costs[0].len() == 2 && costs[1].len() == 2);
    assert(weights(costs).len() == 2);
    assert(assignment::is_permutation(together, 2));
    zero.lemma_order(price);
    zero.lemma_order(cost);
    if columns[0] != 0 {
        assert(columns[0] == 1 && columns[1] == 0) by {
            assert(columns[0] < 2 && columns[1] < 2);
            assert(columns[0] != columns[1]);
        }
        reveal_with_fuel(assignment::total_cost, 3);
        if cost.is_finite() {
            assert(are_finite(costs)) by {
                assert forall|i: int, j: int| 0 <= i < 2 && 0 <= j < 2 implies (
                #[trigger] costs[i][j]).is_finite() by {
                    assert(costs[i][j] == cost || costs[i][j] == price || costs[i][j] == zero);
                }
            }
            let v = values(costs);
            assert(v[0][0] == cost.value() && v[0][1] == price.value());
            assert(v[1][0] == price.value() && v[1][1] == 0);
            assert(assignment::total_cost(v, columns, 2) == 2 * price.value());
            assert(assignment::total_cost(v, together, 2) == cost.value());
            lemma_greatest(costs, 2);
            assert(top.magnitude() <= cost.magnitude() + price.magnitude()) by {
                top.lemma_order(cost);
                top.lemma_order(price);
                if top.pattern() != 0 {
                    let (i, j) = choose|i: int, j: int|
                        0 <= i < 2 && 0 <= j < costs[i].len() && (
                        #[trigger] costs[i][j]).is_finite() && costs[i][j].pattern()
                            == top.pattern();
                    assert(costs[i][j] == cost || costs[i][j] == price || costs[i][j] == zero);
                }
            }
            let p = pow2(121) as int;
            vstd::arithmetic::power2::lemma2_to64();
            vstd::arithmetic::power2::lemma_pow2_strictly_increases(10, 121);
            let c = cost.value();
            let u = price.value();
            assert(2 * u * p <= c * p + 2 * top.magnitude());
            if c >= 0 {
                assert(false) by (nonlinear_arith)
                    requires
                        2 * u * p <= c * p + 2 * (c + u),
                        0 <= c <= 10 * e,
                        7 * e <= u,
                        e > 0,
                        p >= 1000,
                ;
            } else {
                assert(false) by (nonlinear_arith)
                    requires
                        2 * u * p <= c * p + 2 * (u - c),
                        c < 0,
                        0 < u,
                        p >= 1000,
                ;
            }
        } else {
            let w = weights(costs);
            assert(w[0][0] == spec_weight(cost, top) && w[0][1] == spec_weight(price, top));
            assert(w[1][0] == spec_weight(price, top) && w[1][1] == spec_weight(zero, top));
            let d = pow2(exponent(top)) as int;
            assert(0 * pow2(70) == 0) by (nonlinear_arith);
            assert(price.magnitude() * pow2(70) >= 0) by (nonlinear_arith)
                requires
                    price.magnitude() >= 0,
            ;
            vstd::arithmetic::div_mod::lemma_div_pos_is_pos(price.magnitude() * pow2(70), d);
            vstd::arithmetic::div_mod::lemma_basic_div(0, d);
            assert(assignment::total_cost(w, columns, 2) >= 0);
            assert(assignment::total_cost(w, together, 2) < 0);
        }
    }
}

fn weight_row(row: &Vec<Double>, top: Double) -> (r: Vec<i128>)
    requires
        top.is_finite(),
        forall|j: int|
            0 <= j < row.len() && (#[trigger] row[j]).is_finite() ==> row[j].pattern()
                <= top.pattern(),
    ensures
        r.len() == row.len(),
        forall|j: int|
            0 <= j < r.len() ==> #[trigger] r[j] == spec_weight(row[j], top)
                && -assignment::COST_LIMIT <= r[j] <= assignment::COST_LIMIT,
{
    let mut weighed: Vec<i128> = Vec::new();
    let mut j: usize = 0;
    while j < row.len()
        invariant
            top.is_finite(),
            forall|k: int|
                0 <= k < row.len() && (#[trigger] row[k]).is_finite() ==> row[k].pattern()
                    <= top.pattern(),
            j <= row.len(),
            weighed.len() == j,
            forall|k: int|
                0 <= k < j ==> #[trigger] weighed[k] == spec_weight(row[k], top)
                    && -assignment::COST_LIMIT <= weighed[k] <= assignment::COST_LIMIT,
        decreases row.len() - j,
    {
        weighed.push(weight(row[j], top));
        j += 1;
    }
    weighed
}

/// The costs by row and column.
pub open spec fn cost_rows(costs: Seq<Vec<Double>>) -> Seq<Seq<Double>> {
    costs.map_values(|row: Vec<Double>| row@)
}

/// The largest finite magnitude among costs.
fn find_largest(costs: &Vec<Vec<Double>>) -> (r: Double)
    ensures
        r == largest(cost_rows(costs@)),
{
    let mut top = Double { bits: 0 };
    let mut i: usize = 0;
    while i < costs.len()
        invariant
            i <= costs.len(),
            top == greatest(cost_rows(costs@), i as int),
        decreases costs.len() - i,
    {
        let row = &costs[i];
        let ghost before = top;
        let mut j: usize = 0;
        while j < row.len()
            invariant
                j <= row.len(),
                top == greatest_of_row(before, row@, j as int),
            decreases row.len() - j,
        {
            top = greater(top, row[j]);
            j += 1;
        }
        assert(cost_rows(costs@)[i as int] == row@);
        i += 1;
    }
    top
}

/// The weights of a square matrix of costs.
pub fn weigh(costs: &Vec<Vec<Double>>) -> (r: Vec<Vec<i128>>)
    requires
        forall|i: int| 0 <= i < costs.len() ==> (#[trigger] costs[i]).len() == costs.len(),
    ensures
        r.len() == costs.len(),
        assignment::is_square(r@),
        assignment::within_limit(r@),
        assignment::matrix(r@) == weights(cost_rows(costs@)),
{
    let top = find_largest(costs);
    let ghost plain = cost_rows(costs@);
    proof {
        lemma_greatest(plain, plain.len() as int);
        assert forall|i: int, j: int|
            0 <= i < costs.len() && 0 <= j < costs[i].len() && (
            #[trigger] costs[i][j]).is_finite() implies costs[i][j].pattern() <= top.pattern() by {
            assert(plain[i][j] == costs[i][j]);
        }
    }
    let mut weighed: Vec<Vec<i128>> = Vec::new();
    let mut i: usize = 0;
    while i < costs.len()
        invariant
            top.is_finite(),
            forall|k: int, j: int|
                0 <= k < costs.len() && 0 <= j < costs[k].len() && (
                #[trigger] costs[k][j]).is_finite() ==> costs[k][j].pattern() <= top.pattern(),
            i <= costs.len(),
            weighed.len() == i,
            forall|k: int| 0 <= k < i ==> (#[trigger] weighed[k]).len() == costs[k].len(),
            forall|k: int, j: int|
                0 <= k < i && 0 <= j < weighed[k].len() ==> #[trigger] weighed[k][j]
                    == spec_weight(costs[k][j], top) && -assignment::COST_LIMIT <= weighed[k][j]
                    <= assignment::COST_LIMIT,
        decreases costs.len() - i,
    {
        weighed.push(weight_row(&costs[i], top));
        i += 1;
    }
    proof {
        let a = assignment::matrix(weighed@);
        let b = weights(plain);
        assert(a.len() == b.len());
        assert forall|k: int| 0 <= k < a.len() implies a[k] == b[k] by {
            assert(a[k] =~= b[k]);
        }
        assert(a =~= b);
    }
    weighed
}

} // verus!
