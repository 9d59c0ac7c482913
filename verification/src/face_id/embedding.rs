//! Embeddings: normalized, compared, averaged, stored and fingerprinted.

use vstd::prelude::*;
use vstd::string::*;
use sha2::Digest;
use crate::single::Single;
use crate::text;
use crate::text::{decimal, hex};

verus! {

/// The spacing of single-precision numbers above one.
#[verifier::allow_in_spec]
pub fn single_epsilon() -> Single
    returns
        Single::ratio(1, 8_388_608),
{
    Single::ratio(1, 8_388_608)
}

/// The sum of the first `k` products.
pub open spec fn product_sum(left: Seq<Single>, right: Seq<Single>, k: int) -> Single
    decreases k,
{
    if k <= 0 {
        Single::integer(0)
    } else {
        product_sum(left, right, k - 1) + left[k - 1] * right[k - 1]
    }
}

fn dot(left: &Vec<Single>, right: &Vec<Single>) -> (r: Single)
    requires
        left.len() == right.len(),
    ensures
        r == product_sum(left@, right@, left.len() as int),
{
    let mut sum = Single::integer(0);
    let mut i: usize = 0;
    while i < left.len()
        invariant
            i <= left.len(),
            left.len() == right.len(),
            sum == product_sum(left@, right@, i as int),
        decreases left.len() - i,
    {
        sum = sum + left[i] * right[i];
        i += 1;
    }
    sum
}

/// The length of a vector.
pub open spec fn spec_norm(values: Seq<Single>) -> Single {
    product_sum(values, values, values.len() as int).sqrt()
}

/// A vector divided by its length: an error where it is empty, where it is zero, or where some
/// value is not finite.
pub open spec fn spec_normalize(values: Seq<Single>) -> Result<Seq<Single>, Seq<char>> {
    if values.len() == 0 || exists|i: int|
        0 <= i < values.len() && !(#[trigger] values[i]).is_finite() {
        Err("face-ID model returned an empty or non-finite embedding"@)
    } else if spec_norm(values).at_most(single_epsilon()) {
        Err("face-ID model returned a zero embedding"@)
    } else {
        Ok(values.map_values(|value: Single| value / spec_norm(values)))
    }
}

pub fn normalize_embedding(values: &Vec<Single>) -> (r: Result<Vec<Single>, String>)
    ensures
        text::outcome(r) == spec_normalize(values@),
{
    let mut i: usize = 0;
    let mut finite = true;
    while i < values.len()
        invariant
            i <= values.len(),
            finite <==> forall|k: int| 0 <= k < i ==> (#[trigger] values[k]).is_finite(),
        decreases values.len() - i,
    {
        if !values[i].is_finite() {
            finite = false;
        }
        i += 1;
    }
    if values.len() == 0 || !finite {
        return Err("face-ID model returned an empty or non-finite embedding".to_owned());
    }
    let norm = dot(values, values).sqrt();
    if norm.at_most(single_epsilon()) {
        return Err("face-ID model returned a zero embedding".to_owned());
    }
    Ok(divided(values, norm))
}

fn divided(values: &Vec<Single>, divisor: Single) -> (r: Vec<Single>)
    ensures
        r@ == values@.map_values(|value: Single| value / divisor),
{
    let mut quotients: Vec<Single> = Vec::new();
    let mut i: usize = 0;
    while i < values.len()
        invariant
            i <= values.len(),
            quotients.len() == i,
            forall|k: int| 0 <= k < i ==> #[trigger] quotients[k] == values[k] / divisor,
        decreases values.len() - i,
    {
        quotients.push(values[i] / divisor);
        i += 1;
    }
    assert(quotients@ =~= values@.map_values(|value: Single| value / divisor));
    quotients
}

/// Less than any similarity.
#[verifier::allow_in_spec]
pub fn no_similarity() -> Single
    returns
        (Single { bits: 0xFF80_0000 }),
{
    Single { bits: 0xFF80_0000 }
}

/// The cosine of the angle between two unit vectors: minus infinity where their dimensions differ.
pub open spec fn spec_cosine_similarity(left: Seq<Single>, right: Seq<Single>) -> Single {
    if left.len() == right.len() {
        product_sum(left, right, left.len() as int)
    } else {
        no_similarity()
    }
}

pub fn cosine_similarity(left: &Vec<Single>, right: &Vec<Single>) -> (r: Single)
    ensures
        r == spec_cosine_similarity(left@, right@),
{
    if left.len() != right.len() {
        return no_similarity();
    }
    dot(left, right)
}

/// A copy of a vector.
pub fn copy_embedding(values: &Vec<Single>) -> (r: Vec<Single>)
    ensures
        r@ == values@,
{
    let r = values.clone();
    assert(r@ =~= values@);
    r
}

/// The contents of vectors.
pub open spec fn vectors(embeddings: Seq<Vec<Single>>) -> Seq<Seq<Single>> {
    embeddings.map_values(|embedding: Vec<Single>| embedding@)
}

/// The sum of the first `k` vectors: nothing where their dimensions differ.
pub open spec fn vector_sum(embeddings: Seq<Seq<Single>>, k: int) -> Option<Seq<Single>>
    decreases k,
{
    if k <= 0 {
        Some(Seq::empty())
    } else {
        match vector_sum(embeddings, k - 1) {
            Some(sum) => {
                let next = embeddings[k - 1];
                let base = if sum.len() == 0 {
                    Seq::new(next.len(), |i: int| Single::integer(0))
                } else {
                    sum
                };
                if next.len() == base.len() {
                    Some(Seq::new(next.len(), |i: int| base[i] + next[i]))
                } else {
                    None
                }
            },
            None => None,
        }
    }
}

/// The normalized mean of vectors of one dimension.
pub open spec fn spec_mean_embedding(embeddings: Seq<Seq<Single>>) -> Result<
    Seq<Single>,
    Seq<char>,
> {
    match vector_sum(embeddings, embeddings.len() as int) {
        None => Err("captured embeddings have inconsistent dimensions"@),
        Some(sum) => if embeddings.len() == 0 {
            Err("guided capture has no embeddings"@)
        } else {
            spec_normalize(
                sum.map_values(|value: Single| value / Single::integer(embeddings.len() as u64)),
            )
        },
    }
}

pub fn mean_embedding(embeddings: &Vec<Vec<Single>>) -> (r: Result<Vec<Single>, String>)
    ensures
        text::outcome(r) == spec_mean_embedding(vectors(embeddings@)),
{
    let mut sum: Vec<Single> = Vec::new();
    let mut i: usize = 0;
    let ghost all = vectors(embeddings@);
    assert(sum@ =~= Seq::empty());
    while i < embeddings.len()
        invariant
            i <= embeddings.len(),
            all == vectors(embeddings@),
            vector_sum(all, i as int) == Some(sum@),
        decreases embeddings.len() - i,
    {
        let next = &embeddings[i];
        assert(all[i as int] == next@);
        let dimension: usize = if sum.len() == 0 {
            next.len()
        } else {
            sum.len()
        };
        if next.len() != dimension {
            proof {
                lemma_sum_stays_missing(all, i + 1, all.len() as int);
            }
            return Err("captured embeddings have inconsistent dimensions".to_owned());
        }
        let ghost before = sum@;
        let ghost base = if before.len() == 0 {
            Seq::new(next@.len(), |m: int| Single::integer(0))
        } else {
            before
        };
        let mut added: Vec<Single> = Vec::new();
        let mut k: usize = 0;
        while k < next.len()
            invariant
                k <= next.len(),
                sum@ == before,
                before.len() == 0 || before.len() == next.len(),
                base == if before.len() == 0 {
                    Seq::new(next@.len(), |m: int| Single::integer(0))
                } else {
                    before
                },
                added.len() == k,
                forall|m: int| 0 <= m < k ==> #[trigger] added[m] == base[m] + next[m],
            decreases next.len() - k,
        {
            let start = if sum.len() == 0 {
                Single::integer(0)
            } else {
                sum[k]
            };
            added.push(start + next[k]);
            k += 1;
        }
        assert(added@ =~= Seq::new(next@.len(), |m: int| base[m] + next@[m]));
        sum = added;
        i += 1;
    }
    if embeddings.len() == 0 {
        return Err("guided capture has no embeddings".to_owned());
    }
    let mean = divided(&sum, Single::integer(embeddings.len() as u64));
    normalize_embedding(&mean)
}

proof fn lemma_sum_stays_missing(embeddings: Seq<Seq<Single>>, i: int, k: int)
    requires
        0 <= i <= k,
        vector_sum(embeddings, i) is None,
    ensures
        vector_sum(embeddings, k) is None,
    decreases k,
{
    if i < k {
        lemma_sum_stays_missing(embeddings, i, k - 1);
    }
}

/// Byte `k` of a number, from the lowest.
pub open spec fn byte_of(bits: u32, k: int) -> u8 {
    if k == 0 {
        (bits % 256) as u8
    } else if k == 1 {
        ((bits / 256) % 256) as u8
    } else if k == 2 {
        ((bits / 65536) % 256) as u8
    } else {
        (bits / 16777216) as u8
    }
}

/// The bytes of a vector, four for each value, the lowest first.
pub open spec fn spec_embedding_to_blob(embedding: Seq<Single>) -> Seq<u8> {
    Seq::new(4 * embedding.len(), |i: int| byte_of(embedding[i / 4].bits, i % 4))
}

pub fn embedding_to_blob(embedding: &Vec<Single>) -> (r: Vec<u8>)
    ensures
        r@ == spec_embedding_to_blob(embedding@),
{
    let mut blob: Vec<u8> = Vec::new();
    let mut i: usize = 0;
    while i < embedding.len()
        invariant
            i <= embedding.len(),
            blob.len() == 4 * i,
            forall|k: int| 0 <= k < 4 * i ==> #[trigger] blob[k] == byte_of(
                embedding[k / 4].bits,
                k % 4,
            ),
        decreases embedding.len() - i,
    {
        let bits: u32 = embedding[i].bits;
        blob.push((bits % 256) as u8);
        blob.push(((bits / 256) % 256) as u8);
        blob.push(((bits / 65536) % 256) as u8);
        blob.push((bits / 16777216) as u8);
        i += 1;
    }
    assert(blob@ =~= spec_embedding_to_blob(embedding@));
    blob
}

/// The value that four bytes hold, the lowest first.
pub open spec fn value_at(blob: Seq<u8>, i: int) -> Single {
    Single {
        bits: (blob[4 * i] + 256 * blob[4 * i + 1] + 65536 * blob[4 * i + 2] + 16777216 * blob[4
            * i + 3]) as u32,
    }
}

/// The vector that a blob of four bytes a value holds.
pub open spec fn decoded(blob: Seq<u8>) -> Seq<Single> {
    Seq::new(blob.len() / 4, |i: int| value_at(blob, i))
}

/// The normalized vector that a blob of a dimension holds: an error where the blob has another
/// length, or where the vector cannot be normalized.
pub open spec fn spec_embedding_from_blob(blob: Seq<u8>, dimension: usize) -> Result<
    Seq<Single>,
    Seq<char>,
> {
    if dimension * 4 > usize::MAX {
        Err("face-ID database embedding dimension is too large"@)
    } else if blob.len() != dimension * 4 {
        Err(
            "face-ID database embedding has "@ + text::spec_decimal(blob.len())
                + " bytes for dimension "@ + text::spec_decimal(dimension as nat),
        )
    } else {
        spec_normalize(decoded(blob))
    }
}

pub fn embedding_from_blob(blob: &Vec<u8>, dimension: usize) -> (r: Result<Vec<Single>, String>)
    ensures
        text::outcome(r) == spec_embedding_from_blob(blob@, dimension),
{
    if dimension > usize::MAX / 4 {
        return Err("face-ID database embedding dimension is too large".to_owned());
    }
    if blob.len() != dimension * 4 {
        let message = "face-ID database embedding has ".to_owned().concat(
            decimal(blob.len() as u64).as_str(),
        ).concat(" bytes for dimension ").concat(decimal(dimension as u64).as_str());
        return Err(message);
    }
    let mut embedding: Vec<Single> = Vec::new();
    let mut i: usize = 0;
    while i < dimension
        invariant
            i <= dimension,
            dimension <= usize::MAX / 4,
            blob.len() == dimension * 4,
            embedding.len() == i,
            forall|k: int| 0 <= k < i ==> #[trigger] embedding[k] == value_at(blob@, k),
        decreases dimension - i,
    {
        let bits: u32 = blob[4 * i] as u32 + 256 * blob[4 * i + 1] as u32 + 65536 * blob[4 * i
            + 2] as u32 + 16777216 * blob[4 * i + 3] as u32;
        embedding.push(Single { bits });
        i += 1;
    }
    assert(embedding@ =~= decoded(blob@));
    normalize_embedding(&embedding)
}

proof fn lemma_bytes_of(bits: u32)
    ensures
        byte_of(bits, 0) + 256 * byte_of(bits, 1) + 65536 * byte_of(bits, 2) + 16777216 * byte_of(
            bits,
            3,
        ) == bits,
{
}

proof fn lemma_blob_byte(embedding: Seq<Single>, i: int, k: int)
    requires
        0 <= i < embedding.len(),
        0 <= k < 4,
    ensures
        spec_embedding_to_blob(embedding)[4 * i + k] == byte_of(embedding[i].bits, k),
{
    assert((4 * i + k) / 4 == i);
    assert((4 * i + k) % 4 == k);
}

/// What is read back from the blob of a vector is the vector.
pub proof fn law_blob_round_trip(embedding: Seq<Single>)
    ensures
        decoded(spec_embedding_to_blob(embedding)) == embedding,
{
    let blob = spec_embedding_to_blob(embedding);
    assert(blob.len() / 4 == embedding.len());
    assert forall|i: int| 0 <= i < embedding.len() implies #[trigger] decoded(blob)[i]
        == embedding[i] by {
        lemma_blob_byte(embedding, i, 0);
        lemma_blob_byte(embedding, i, 1);
        lemma_blob_byte(embedding, i, 2);
        lemma_blob_byte(embedding, i, 3);
        lemma_bytes_of(embedding[i].bits);
        assert(value_at(blob, i).bits == embedding[i].bits);
    }
    assert(decoded(blob) =~= embedding);
}

/// A stored vector comes back as it was, normalized once more.
pub proof fn law_stored_comes_back(embedding: Seq<Single>, dimension: usize)
    requires
        embedding.len() == dimension,
        dimension * 4 <= usize::MAX,
    ensures
        spec_embedding_from_blob(spec_embedding_to_blob(embedding), dimension) == spec_normalize(
            embedding,
        ),
{
    law_blob_round_trip(embedding);
}

/// The SHA-256 digest of bytes.
pub uninterp spec fn sha256_digest(bytes: Seq<u8>) -> Seq<u8>;

/// Hashes bytes with `sha2::Sha256::digest`: the contract names the digest, which depends on the
/// bytes alone, and says that it has thirty-two bytes.
#[verifier::external_body]
pub(crate) fn sha256(bytes: &Vec<u8>) -> (r: Vec<u8>)
    ensures
        r@ == sha256_digest(bytes@),
        r.len() == 32,
{
    sha2::Sha256::digest(bytes).to_vec()
}

/// The checksum of a model file with this content: its SHA-256 digest in hexadecimal.
pub fn model_checksum(content: &Vec<u8>) -> (r: String)
    ensures
        r@ == text::spec_hex(sha256_digest(content@), 32),
{
    let digest = sha256(content);
    hex(&digest, 32)
}

/// A value between minus one and one as a signed byte, rounded to the nearest of 127 steps each
/// way.
pub open spec fn spec_quantized(value: Single) -> u8 {
    let scaled = value.clamp(
        Single::integer(1).negated(),
        Single::integer(1),
    ) * Single::integer(127);
    let steps = scaled.round_magnitude();
    if scaled.nan() || steps == 0 {
        0
    } else if scaled.negative() {
        (if steps > 128 {
            128
        } else {
            256 - steps
        }) as u8
    } else {
        (if steps > 127 {
            127
        } else {
            steps as int
        }) as u8
    }
}

pub fn quantized(value: Single) -> (r: u8)
    ensures
        r == spec_quantized(value),
{
    let scaled = value.clamp(
        Single::integer(1).negated(),
        Single::integer(1),
    ) * Single::integer(127);
    let steps: u64 = scaled.round_magnitude();
    if scaled.is_nan() || steps == 0 {
        0
    } else if scaled.is_negative() {
        if steps > 128 {
            128
        } else {
            (256 - steps) as u8
        }
    } else {
        if steps > 127 {
            127
        } else {
            steps as u8
        }
    }
}

/// The bytes that a vector is fingerprinted by.
pub open spec fn spec_quantize(embedding: Seq<Single>) -> Seq<u8> {
    embedding.map_values(|value: Single| spec_quantized(value))
}

/// The bytes that a vector is fingerprinted by.
pub fn quantize(embedding: &Vec<Single>) -> (r: Vec<u8>)
    ensures
        r@ == spec_quantize(embedding@),
{
    let mut bytes: Vec<u8> = Vec::new();
    let mut i: usize = 0;
    while i < embedding.len()
        invariant
            i <= embedding.len(),
            bytes.len() == i,
            forall|k: int| 0 <= k < i ==> #[trigger] bytes[k] == spec_quantized(embedding[k]),
        decreases embedding.len() - i,
    {
        bytes.push(quantized(embedding[i]));
        i += 1;
    }
    assert(bytes@ =~= spec_quantize(embedding@));
    bytes
}

/// The fingerprint that a digest gives: its first eight bytes in hexadecimal.
pub open spec fn spec_fingerprint_of(digest: Seq<u8>) -> Seq<char> {
    text::spec_hex(digest, 8)
}

/// The fingerprint that a digest gives: its first eight bytes in hexadecimal.
pub fn fingerprint_of(digest: &Vec<u8>) -> (r: String)
    requires
        digest.len() >= 8,
    ensures
        r@ == spec_fingerprint_of(digest@),
{
    hex(digest, 8)
}

/// The compact label of an embedding.
pub open spec fn spec_embedding_fingerprint(embedding: Seq<Single>) -> Seq<char> {
    spec_fingerprint_of(sha256_digest(spec_quantize(embedding)))
}

/// The compact label of an embedding.
pub fn embedding_fingerprint(embedding: &Vec<Single>) -> (r: String)
    ensures
        r@ == spec_embedding_fingerprint(embedding@),
{
    let bytes = quantize(embedding);
    let digest = sha256(&bytes);
    fingerprint_of(&digest)
}

} // verus!
