//! Embeddings as vectors: their products, lengths and means.

use vstd::prelude::*;
use vstd::arithmetic::power2::pow2;
use crate::dyadic;
use crate::dyadic::{is_dyadic, size};
use crate::face_id::embedding::{
    product_sum, single_epsilon, spec_cosine_similarity, spec_mean_embedding,
    spec_norm, spec_normalize, vector_sum,
};
use crate::patterns;
use crate::root;
use crate::rounding;
use crate::single::Single;

verus! {

/// The values of a vector are the numbers `v * 2^-e`.
pub open spec fn are_dyadic(values: Seq<Single>, v: Seq<int>, e: nat) -> bool {
    &&& values.len() == v.len()
    &&& forall|i: int| 0 <= i < v.len() ==> is_dyadic(#[trigger] values[i], v[i], e)
}

/// The product of the first `k` numbers of two vectors.
pub open spec fn exact_product(v: Seq<int>, w: Seq<int>, k: int) -> int
    decreases k,
{
    if k <= 0 {
        0
    } else {
        exact_product(v, w, k - 1) + v[k - 1] * w[k - 1]
    }
}

/// The sizes of the products of the first `k` numbers, added up.
pub open spec fn product_size(v: Seq<int>, w: Seq<int>, k: int) -> int
    decreases k,
{
    if k <= 0 {
        0
    } else {
        product_size(v, w, k - 1) + size(v[k - 1] * w[k - 1])
    }
}

proof fn lemma_product_sum(
    left: Seq<Single>,
    right: Seq<Single>,
    v: Seq<int>,
    w: Seq<int>,
    e: nat,
    f: nat,
    k: int,
)
    requires
        are_dyadic(left, v, e),
        are_dyadic(right, w, f),
        v.len() == w.len(),
        e + f <= 149,
        0 <= k <= v.len(),
        product_size(v, w, v.len() as int) <= dyadic::most(),
    ensures
        is_dyadic(product_sum(left, right, k), exact_product(v, w, k), e + f),
        size(exact_product(v, w, k)) <= product_size(v, w, k) <= dyadic::most(),
    decreases k,
{
    lemma_size_grows(v, w, k, v.len() as int);
    if k <= 0 {
        dyadic::lemma_integer(0);
        dyadic::lemma_finer(Single::integer(0), 0, 0, e + f);
        assert(0 * pow2(e + f) == 0) by (nonlinear_arith);
    } else {
        lemma_product_sum(left, right, v, w, e, f, k - 1);
        let (x, y) = (left[k - 1], right[k - 1]);
        assert(is_dyadic(x, v[k - 1], e) && is_dyadic(y, w[k - 1], f));
        let before = exact_product(v, w, k - 1);
        assert(product_size(v, w, k - 1) >= 0);
        dyadic::lemma_product(x, v[k - 1], e, y, w[k - 1], f);
        dyadic::lemma_sum(
            product_sum(left, right, k - 1),
            before,
            x * y,
            v[k - 1] * w[k - 1],
            e + f,
        );
    }
}

proof fn lemma_size_grows(v: Seq<int>, w: Seq<int>, k: int, n: int)
    requires
        0 <= k <= n,
    ensures
        0 <= product_size(v, w, k) <= product_size(v, w, n),
    decreases n,
{
    if k < n {
        lemma_size_grows(v, w, k, n - 1);
    } else if k > 0 {
        lemma_size_grows(v, w, k - 1, k - 1);
    }
}

/// The similarity of two embeddings is the product of their vectors: exactly so where their values
/// are numbers of few digits. Embeddings of different dimensions are less similar than any others.
pub proof fn law_similarity_is_the_product(
    left: Seq<Single>,
    right: Seq<Single>,
    v: Seq<int>,
    w: Seq<int>,
    e: nat,
    f: nat,
)
    requires
        are_dyadic(left, v, e),
        are_dyadic(right, w, f),
        e + f <= 149,
        v.len() == w.len() ==> product_size(v, w, v.len() as int) <= dyadic::most(),
    ensures
        v.len() == w.len() ==> is_dyadic(
            spec_cosine_similarity(left, right),
            exact_product(v, w, v.len() as int),
            e + f,
        ),
        v.len() != w.len() ==> spec_cosine_similarity(left, right).infinite()
            && spec_cosine_similarity(left, right).negative(),
{
    if v.len() == w.len() {
        lemma_product_sum(left, right, v, w, e, f, v.len() as int);
    }
}

/// The root of a square.
proof fn lemma_root(s: Single, k: int, e: nat)
    requires
        is_dyadic(s, k * k, 2 * e),
        0 < k <= dyadic::most(),
        2 * e <= 149,
    ensures
        is_dyadic(s.sqrt(), k, e),
        !s.sqrt().negative(),
{
    reveal(Single::spec_sqrt);
    reveal(Single::magnitude);
    let u = dyadic::unit(e);
    let w = dyadic::unit(2 * e);
    let one = pow2(149) as int;
    vstd::arithmetic::power2::lemma_pow2_pos((149 - e) as nat);
    vstd::arithmetic::power2::lemma_pow2_pos((149 - 2 * e) as nat);
    vstd::arithmetic::power2::lemma_pow2_adds((149 - 2 * e) as nat, 149);
    vstd::arithmetic::power2::lemma_pow2_adds((149 - e) as nat, (149 - e) as nat);
    assert(w * one == u * u);
    s.lemma_order(s);
    assert(k * k > 0) by (nonlinear_arith)
        requires
            k > 0,
    ;
    assert(k * k * w > 0) by (nonlinear_arith)
        requires
            k * k > 0,
            w > 0,
    ;
    let m = k * u;
    let n = s.magnitude() * one;
    assert(n == m * m) by (nonlinear_arith)
        requires
            n == k * k * w * one,
            w * one == u * u,
            m == k * u,
    ;
    let p = dyadic::lemma_representable(k, (149 - e) as nat);
    Single::lemma_format();
    let inf = patterns::infinity(23, 255);
    rounding::lemma_mag_nonnegative(p, 23);
    assert(m > 0) by (nonlinear_arith)
        requires
            m == k * u,
            k > 0,
            u > 0,
    ;
    assert(p > 0) by {
        rounding::lemma_mag_nonnegative(0, 23);
    }
    rounding::lemma_mag_nonnegative(p - 1, 23);
    rounding::lemma_mag_increases(p - 1, p, 23);
    rounding::lemma_mag_increases(p, p + 1, 23);
    let low = rounding::mag(p - 1, 23) + rounding::mag(p, 23);
    let high = rounding::mag(p, 23) + rounding::mag(p + 1, 23);
    assert(low * low < 4 * n && 4 * n < high * high) by (nonlinear_arith)
        requires
            0 <= low < 2 * m,
            2 * m < high,
            n == m * m,
    ;
    root::lemma_nearest_root_is(p, n, 23, inf);
}

/// An embedding is divided by its length: exactly so where its values, and its length, are numbers
/// of few digits.
pub proof fn law_embedding_over_its_length(
    values: Seq<Single>,
    v: Seq<int>,
    e: nat,
    k: int,
    length: Single,
)
    requires
        are_dyadic(values, v, e),
        v.len() > 0,
        2 * e <= 46,
        0 < k <= 4096,
        exact_product(v, v, v.len() as int) == k * k,
        product_size(v, v, v.len() as int) <= dyadic::most(),
        pow2(e) <= k,
        is_dyadic(length, k, e),
    ensures
        spec_normalize(values) matches Ok(unit) && unit == values.map_values(
            |value: Single| value / length,
        ),
{
    lemma_product_sum(values, values, v, v, e, e, v.len() as int);
    let s = product_sum(values, values, v.len() as int);
    lemma_root(s, k, e);
    let norm = spec_norm(values);
    norm.lemma_order(length);
    length.lemma_order(norm);
    assert(norm == length) by {
        let u = dyadic::unit(e);
        vstd::arithmetic::power2::lemma_pow2_pos((149 - e) as nat);
        assert(k * u > 0) by (nonlinear_arith)
            requires
                k > 0,
                u > 0,
        ;
    }
    assert forall|i: int| 0 <= i < values.len() implies (#[trigger] values[i]).is_finite() by {
        assert(is_dyadic(values[i], v[i], e));
    }
    lemma_long(norm, k, e);
    assert(spec_normalize(values)->Ok_0 =~= values.map_values(|value: Single| value / length));
}

/// A length of one or more is not next to nothing.
proof fn lemma_long(x: Single, k: int, e: nat)
    requires
        is_dyadic(x, k, e),
        pow2(e) <= k,
        e <= 23,
    ensures
        !x.at_most(single_epsilon()),
{
    let least = single_epsilon();
    vstd::arithmetic::power2::lemma2_to64();
    vstd::arithmetic::power2::lemma_pow2_adds(23, 126);
    assert(1 * pow2(149) == 1 * dyadic::unit(23) * 8_388_608);
    dyadic::lemma_nearest(false, 1, 23, 1u64 * pow2(149), 8_388_608);
    assert(is_dyadic(least, 1, 23));
    let f = (23 - e) as nat;
    dyadic::lemma_finer(x, k, e, f);
    vstd::arithmetic::power2::lemma_pow2_pos(f);
    vstd::arithmetic::power2::lemma_pow2_adds(e, f);
    assert(k * pow2(f) >= pow2(e) * pow2(f)) by (nonlinear_arith)
        requires
            k >= pow2(e),
            pow2(f) > 0,
    ;
    dyadic::lemma_order(least, 1, x, k * pow2(f), 23);
}

/// The sum of entry `i` of the first `k` vectors.
pub open spec fn entry_sum(vs: Seq<Seq<int>>, i: int, k: int) -> int
    decreases k,
{
    if k <= 0 {
        0
    } else {
        entry_sum(vs, i, k - 1) + vs[k - 1][i]
    }
}

proof fn lemma_vector_sum(embeddings: Seq<Seq<Single>>, vs: Seq<Seq<int>>, n: nat, k: int)
    requires
        embeddings.len() == vs.len(),
        0 < k <= vs.len() <= 256,
        n > 0,
        forall|j: int| 0 <= j < vs.len() ==> are_dyadic(#[trigger] embeddings[j], vs[j], 0),
        forall|j: int| 0 <= j < vs.len() ==> (#[trigger] vs[j]).len() == n,
        forall|j: int, i: int|
            0 <= j < vs.len() && 0 <= i < n ==> -4096 <= #[trigger] vs[j][i] <= 4096,
    ensures
        vector_sum(embeddings, k) matches Some(sum) && sum.len() == n && forall|i: int|
            0 <= i < n ==> is_dyadic(#[trigger] sum[i], entry_sum(vs, i, k), 0) && size(
                entry_sum(vs, i, k),
            ) <= 4096 * k,
    decreases k,
{
    let next = embeddings[k - 1];
    assert(are_dyadic(next, vs[k - 1], 0));
    assert(vs[k - 1].len() == n);
    dyadic::lemma_integer(0);
    if k > 1 {
        lemma_vector_sum(embeddings, vs, n, k - 1);
        let sum = vector_sum(embeddings, k - 1)->0;
        let after = vector_sum(embeddings, k)->0;
        assert forall|i: int| 0 <= i < n implies is_dyadic(
            #[trigger] after[i],
            entry_sum(vs, i, k),
            0,
        ) && size(entry_sum(vs, i, k)) <= 4096 * k by {
            assert(is_dyadic(sum[i], entry_sum(vs, i, k - 1), 0));
            assert(is_dyadic(next[i], vs[k - 1][i], 0));
            dyadic::lemma_sum(sum[i], entry_sum(vs, i, k - 1), next[i], vs[k - 1][i], 0);
        }
    } else {
        assert(vector_sum(embeddings, 0) == Some(Seq::<Single>::empty()));
        let after = vector_sum(embeddings, k)->0;
        assert forall|i: int| 0 <= i < n implies is_dyadic(
            #[trigger] after[i],
            entry_sum(vs, i, k),
            0,
        ) && size(entry_sum(vs, i, k)) <= 4096 * k by {
            assert(entry_sum(vs, i, 0) == 0);
            assert(is_dyadic(next[i], vs[k - 1][i], 0));
            dyadic::lemma_sum(Single::integer(0), 0, next[i], vs[k - 1][i], 0);
        }
    }
}

/// The mean of embeddings is the mean of their vectors over its length: exactly so in whole
/// numbers.
pub proof fn law_mean_embedding(
    embeddings: Seq<Seq<Single>>,
    vs: Seq<Seq<int>>,
    mean: Seq<int>,
    k: int,
    length: Single,
)
    requires
        embeddings.len() == vs.len(),
        0 < vs.len() <= 256,
        mean.len() > 0,
        forall|j: int| 0 <= j < vs.len() ==> are_dyadic(#[trigger] embeddings[j], vs[j], 0),
        forall|j: int| 0 <= j < vs.len() ==> (#[trigger] vs[j]).len() == mean.len(),
        forall|j: int, i: int|
            0 <= j < vs.len() && 0 <= i < mean.len() ==> -4096 <= #[trigger] vs[j][i] <= 4096,
        forall|i: int|
            0 <= i < mean.len() ==> entry_sum(vs, i, vs.len() as int) == #[trigger] mean[i]
                * vs.len(),
        0 < k <= 4096,
        exact_product(mean, mean, mean.len() as int) == k * k,
        product_size(mean, mean, mean.len() as int) <= dyadic::most(),
        is_dyadic(length, k, 0),
    ensures
        spec_mean_embedding(embeddings) matches Ok(unit) && unit.len() == mean.len() && forall|
            i: int,
            x: Single,
        |
            0 <= i < mean.len() && is_dyadic(x, mean[i], 0) && mean[i] != 0 ==> #[trigger] unit[i]
                == #[trigger] (x / length),
{
    let n = vs.len() as int;
    let d = mean.len();
    lemma_vector_sum(embeddings, vs, d, n);
    let sum = vector_sum(embeddings, n)->0;
    let count = Single::integer(embeddings.len() as u64);
    dyadic::lemma_integer(embeddings.len() as u64);
    let values = sum.map_values(|value: Single| value / count);
    assert forall|i: int| 0 <= i < d implies is_dyadic(#[trigger] values[i], mean[i], 0) by {
        assert(is_dyadic(sum[i], entry_sum(vs, i, n), 0));
        assert(entry_sum(vs, i, n) == mean[i] * n);
        assert(size(mean[i]) <= 4096) by (nonlinear_arith)
            requires
                size(mean[i] * n) <= 4096 * n,
                n > 0,
        ;
        dyadic::lemma_quotient(sum[i], mean[i], count, n);
    }
    vstd::arithmetic::power2::lemma2_to64();
    law_embedding_over_its_length(values, mean, 0, k, length);
    let unit = spec_mean_embedding(embeddings)->Ok_0;
    assert forall|i: int, x: Single|
        0 <= i < mean.len() && is_dyadic(x, mean[i], 0) && mean[i] != 0 implies #[trigger] unit[i]
        == #[trigger] (x / length) by {
        let y = values[i];
        assert(is_dyadic(y, mean[i], 0));
        x.lemma_order(y);
        let u = dyadic::unit(0);
        vstd::arithmetic::power2::lemma_pow2_pos(149);
        let m = mean[i];
        assert(m * u != 0) by (nonlinear_arith)
            requires
                m != 0,
                u > 0,
        ;
        assert(x == y);
    }
}

} // verus!
