//! What a benchmark reports: timings summed up, and the machine that they were taken on.

use vstd::prelude::*;
use vstd::string::*;
use crate::double::Double;
use crate::fixed;
use crate::fixed::fixed;
use crate::text;
use crate::text::{decimal, trim};

verus! {

/// How many inferences run before the timed ones.
pub const WARMUP_ITERATIONS: u64 = 5;

/// What a benchmark measured. Times are in milliseconds.
#[derive(Clone, Copy, Debug, PartialEq, Eq, Structural)]
pub struct BenchmarkReport {
    pub session_initialization_ms: Double,
    pub first_inference_ms: Double,
    pub iterations: u64,
    pub warmup_iterations: u64,
    pub average_inference_ms: Double,
    pub median_inference_ms: Double,
    pub p95_inference_ms: Double,
    pub minimum_inference_ms: Double,
    pub maximum_inference_ms: Double,
    pub embeddings_per_second: Double,
    pub embedding_dimensions: u64,
}

/// Nanoseconds as milliseconds.
#[verifier::allow_in_spec]
pub fn milliseconds(nanoseconds: u64) -> Double
    returns
        Double::integer(nanoseconds) / Double::integer(1_000_000),
{
    Double::integer(nanoseconds) / Double::integer(1_000_000)
}

/// The sum of the first `k` times, in milliseconds.
pub open spec fn time_sum(times: Seq<u64>, k: int) -> Double
    decreases k,
{
    if k <= 0 {
        Double::integer(0)
    } else {
        time_sum(times, k - 1) + milliseconds(times[k - 1])
    }
}

/// Times from the least to the greatest.
pub open spec fn is_sorted(times: Seq<u64>) -> bool {
    forall|i: int, j: int| 0 <= i <= j < times.len() ==> times[i] <= times[j]
}

/// The place of the least time that at least ninety-five of a hundred times do not exceed.
pub open spec fn p95_index(count: int) -> int {
    (95 * count + 99) / 100 - 1
}

/// What is reported of times, given the same times in order.
pub open spec fn spec_report(
    session: u64,
    first: u64,
    times: Seq<u64>,
    ordered: Seq<u64>,
    dimensions: u64,
) -> BenchmarkReport {
    let n = times.len() as int;
    let average = time_sum(times, n) / Double::integer(n as u64);
    BenchmarkReport {
        session_initialization_ms: milliseconds(session),
        first_inference_ms: milliseconds(first),
        iterations: n as u64,
        warmup_iterations: WARMUP_ITERATIONS,
        average_inference_ms: average,
        median_inference_ms: (milliseconds(ordered[(n - 1) / 2]) + milliseconds(ordered[n / 2]))
            / Double::integer(2),
        p95_inference_ms: milliseconds(ordered[p95_index(n)]),
        minimum_inference_ms: milliseconds(ordered[0]),
        maximum_inference_ms: milliseconds(ordered[n - 1]),
        embeddings_per_second: Double::integer(1000) / average,
        embedding_dimensions: dimensions,
    }
}

/// Whether `ordered` holds the same times, from the least to the greatest.
pub open spec fn is_ordering(times: Seq<u64>, ordered: Seq<u64>) -> bool {
    &&& is_sorted(ordered)
    &&& ordered.to_multiset() == times.to_multiset()
}

/// The times of two sorted lists, sorted.
fn merge(a: &Vec<u64>, b: &Vec<u64>) -> (r: Vec<u64>)
    requires
        is_sorted(a@),
        is_sorted(b@),
    ensures
        is_sorted(r@),
        r@.to_multiset() == a@.to_multiset().add(b@.to_multiset()),
{
    broadcast use vstd::seq_lib::group_to_multiset_ensures;
    broadcast use vstd::multiset::group_multiset_axioms;

    let mut merged: Vec<u64> = Vec::new();
    let mut i: usize = 0;
    let mut j: usize = 0;
    assert(a@.take(0) =~= Seq::empty());
    assert(b@.take(0) =~= Seq::empty());
    assert(merged@.to_multiset() =~= a@.take(0).to_multiset().add(b@.take(0).to_multiset()));
    while i < a.len() || j < b.len()
        invariant
            i <= a.len(),
            j <= b.len(),
            is_sorted(a@),
            is_sorted(b@),
            is_sorted(merged@),
            forall|k: int, m: int|
                0 <= k < merged.len() && i <= m < a.len() ==> #[trigger] merged[k]
                    <= #[trigger] a[m],
            forall|k: int, m: int|
                0 <= k < merged.len() && j <= m < b.len() ==> #[trigger] merged[k]
                    <= #[trigger] b[m],
            merged@.to_multiset() == a@.take(i as int).to_multiset().add(
                b@.take(j as int).to_multiset(),
            ),
        decreases a.len() - i + b.len() - j,
    {
        let from_a = j >= b.len() || (i < a.len() && a[i] <= b[j]);
        let ghost before = merged@;
        if from_a {
            merged.push(a[i]);
            proof {
                let taken = a@.take(i as int);
                let rest = b@.take(j as int);
                assert(a@.take(i + 1) =~= taken.push(a@[i as int]));
                vstd::seq_lib::to_multiset_build(before, a@[i as int]);
                vstd::seq_lib::to_multiset_build(taken, a@[i as int]);
                assert(merged@.to_multiset() =~= a@.take(i + 1).to_multiset().add(
                    rest.to_multiset(),
                ));
            }
            i += 1;
        } else {
            merged.push(b[j]);
            proof {
                let taken = b@.take(j as int);
                let rest = a@.take(i as int);
                assert(b@.take(j + 1) =~= taken.push(b@[j as int]));
                vstd::seq_lib::to_multiset_build(before, b@[j as int]);
                vstd::seq_lib::to_multiset_build(taken, b@[j as int]);
                assert(merged@.to_multiset() =~= rest.to_multiset().add(
                    b@.take(j + 1).to_multiset(),
                ));
            }
            j += 1;
        }
    }
    assert(a@.take(i as int) =~= a@);
    assert(b@.take(j as int) =~= b@);
    merged
}

/// The times of a stretch of a list, sorted.
fn sorted(times: &Vec<u64>, from: usize, to: usize) -> (r: Vec<u64>)
    requires
        from <= to <= times.len(),
    ensures
        is_sorted(r@),
        r@.to_multiset() == times@.subrange(from as int, to as int).to_multiset(),
    decreases to - from,
{
    if to - from <= 1 {
        let mut short: Vec<u64> = Vec::new();
        if from < to {
            short.push(times[from]);
        }
        assert(short@ =~= times@.subrange(from as int, to as int));
        return short;
    }
    let middle: usize = from + (to - from) / 2;
    let left = sorted(times, from, middle);
    let right = sorted(times, middle, to);
    proof {
        let a = times@.subrange(from as int, middle as int);
        let b = times@.subrange(middle as int, to as int);
        vstd::seq_lib::lemma_multiset_commutative(a, b);
        assert(a + b =~= times@.subrange(from as int, to as int));
    }
    merge(&left, &right)
}

/// Sums up the times of a benchmark, in nanoseconds.
pub fn report(session: u64, first: u64, times: &Vec<u64>, dimensions: u64) -> (r: BenchmarkReport)
    requires
        times.len() > 0,
    ensures
        exists|ordered: Seq<u64>|
            #[trigger] is_ordering(times@, ordered) && r == spec_report(
                session,
                first,
                times@,
                ordered,
                dimensions,
            ),
{
    let ordered = sorted(times, 0, times.len());
    let n: usize = times.len();
    proof {
        broadcast use vstd::seq_lib::group_to_multiset_ensures;

        assert(times@.subrange(0, times.len() as int) =~= times@);
        assert(ordered@.to_multiset().len() == ordered.len());
        assert(times@.to_multiset().len() == times.len());
        assert(is_ordering(times@, ordered@));
    }
    let mut sum = Double::integer(0);
    let mut i: usize = 0;
    while i < n
        invariant
            i <= n,
            n == times.len(),
            sum == time_sum(times@, i as int),
        decreases n - i,
    {
        sum = sum + milliseconds(times[i]);
        i += 1;
    }
    let average = sum / Double::integer(n as u64);
    let p95: usize = ((95 * n as u128 + 99) / 100 - 1) as usize;
    BenchmarkReport {
        session_initialization_ms: milliseconds(session),
        first_inference_ms: milliseconds(first),
        iterations: n as u64,
        warmup_iterations: WARMUP_ITERATIONS,
        average_inference_ms: average,
        median_inference_ms: (milliseconds(ordered[(n - 1) / 2]) + milliseconds(ordered[n / 2]))
            / Double::integer(2),
        p95_inference_ms: milliseconds(ordered[p95]),
        minimum_inference_ms: milliseconds(ordered[0]),
        maximum_inference_ms: milliseconds(ordered[n - 1]),
        embeddings_per_second: Double::integer(1000) / average,
        embedding_dimensions: dimensions,
    }
}

/// Times have one ordering, so that a report depends on the times alone.
pub proof fn law_one_ordering(times: Seq<u64>, a: Seq<u64>, b: Seq<u64>)
    requires
        is_ordering(times, a),
        is_ordering(times, b),
    ensures
        a == b,
    decreases times.len(),
{
    vstd::seq_lib::lemma_sorted_unique(a, b, |x: u64, y: u64| x <= y);
}

/// The least time, the median, the ninety-fifth hundredth and the greatest time lie in this order.
pub proof fn law_statistics_are_in_order(times: Seq<u64>, ordered: Seq<u64>)
    requires
        times.len() > 0,
        is_ordering(times, ordered),
    ensures
        ordered.len() == times.len(),
        ordered[0] <= ordered[(times.len() - 1) / 2] <= ordered[times.len() as int / 2],
        ordered[times.len() as int / 2] <= ordered[p95_index(times.len() as int)],
        ordered[p95_index(times.len() as int)] <= ordered[times.len() - 1],
{
    broadcast use vstd::seq_lib::group_to_multiset_ensures;

    assert(ordered.to_multiset().len() == ordered.len());
    assert(times.to_multiset().len() == times.len());
}

/// The lines before a benchmark runs.
pub open spec fn spec_benchmark_header(
    hardware: Seq<char>,
    memory: Seq<char>,
    system: Seq<char>,
    model_path: Seq<char>,
) -> Seq<char> {
    "SFace/Core ML benchmark\nhardware: "@ + hardware + " | memory: "@ + memory + " | macOS: "@
        + system + "\nmodel: "@ + model_path
        + "\nbackend: CoreML | compute units: all | input: 1x3x112x112"@
}

pub fn benchmark_header(hardware: &str, memory: &str, system: &str, model_path: &str) -> (r: String)
    ensures
        r@ == spec_benchmark_header(hardware@, memory@, system@, model_path@),
{
    "SFace/Core ML benchmark\nhardware: ".to_owned().concat(hardware).concat(
        " | memory: ",
    ).concat(memory).concat(" | macOS: ").concat(system).concat("\nmodel: ").concat(
        model_path,
    ).concat("\nbackend: CoreML | compute units: all | input: 1x3x112x112")
}

/// A benchmark's report as text.
pub open spec fn spec_report_text(report: BenchmarkReport) -> Seq<char> {
    "session initialization: "@ + fixed::spec_fixed(report.session_initialization_ms, 3)
        + " ms\nfirst inference:       "@ + fixed::spec_fixed(report.first_inference_ms, 3)
        + " ms\nsteady state ("@ + text::spec_decimal(report.iterations as nat) + " runs after "@
        + text::spec_decimal(report.warmup_iterations as nat)
        + " warmups):\n  average:             "@
        + fixed::spec_fixed(report.average_inference_ms, 3)
        + " ms\n  median (p50):        "@ + fixed::spec_fixed(report.median_inference_ms, 3)
        + " ms\n  p95:                 "@ + fixed::spec_fixed(report.p95_inference_ms, 3)
        + " ms\n  min / max:           "@ + fixed::spec_fixed(report.minimum_inference_ms, 3)
        + " / "@ + fixed::spec_fixed(report.maximum_inference_ms, 3)
        + " ms\n  throughput:          "@ + fixed::spec_fixed(report.embeddings_per_second, 1)
        + " embeddings/s\nembedding dimensions:  "@
        + text::spec_decimal(report.embedding_dimensions as nat)
        + "\nnote: synthetic input; this measures embedding compute, not camera or Vision"@
}

pub fn report_text(report: &BenchmarkReport) -> (r: String)
    ensures
        r@ == spec_report_text(*report),
{
    "session initialization: ".to_owned().concat(
        fixed(report.session_initialization_ms, 3).as_str(),
    ).concat(" ms\nfirst inference:       ").concat(
        fixed(report.first_inference_ms, 3).as_str(),
    ).concat(" ms\nsteady state (").concat(decimal(report.iterations).as_str()).concat(
        " runs after ",
    ).concat(decimal(report.warmup_iterations).as_str()).concat(
        " warmups):\n  average:             ",
    ).concat(fixed(report.average_inference_ms, 3).as_str()).concat(
        " ms\n  median (p50):        ",
    ).concat(fixed(report.median_inference_ms, 3).as_str()).concat(
        " ms\n  p95:                 ",
    ).concat(fixed(report.p95_inference_ms, 3).as_str()).concat(
        " ms\n  min / max:           ",
    ).concat(fixed(report.minimum_inference_ms, 3).as_str()).concat(" / ").concat(
        fixed(report.maximum_inference_ms, 3).as_str(),
    ).concat(" ms\n  throughput:          ").concat(
        fixed(report.embeddings_per_second, 1).as_str(),
    ).concat(" embeddings/s\nembedding dimensions:  ").concat(
        decimal(report.embedding_dimensions).as_str(),
    ).concat("\nnote: synthetic input; this measures embedding compute, not camera or Vision")
}

/// The value of a field in what the system says of itself: the rest of the first line that begins
/// with the field's name, white space at both ends not counted.
pub open spec fn spec_profile_field(output: Seq<char>, name: Seq<char>, from: int) -> Option<
    Seq<char>,
>
    decreases output.len() - from,
{
    if from < 0 || from >= output.len() {
        None
    } else {
        let end = line_end(output, from);
        let line = text::spec_trim(output.subrange(from, end));
        if name.len() <= line.len() && line.subrange(0, name.len() as int) == name {
            Some(text::spec_trim(line.subrange(name.len() as int, line.len() as int)))
        } else if end < from || end >= output.len() {
            None
        } else {
            spec_profile_field(output, name, end + 1)
        }
    }
}

/// Where the line that begins at a place ends.
pub open spec fn line_end(output: Seq<char>, from: int) -> int
    decreases output.len() - from,
{
    if from < 0 || from >= output.len() || output[from] == '\n' {
        from
    } else {
        line_end(output, from + 1)
    }
}

fn find_line_end(output: &str, from: usize) -> (r: usize)
    requires
        from <= output@.len(),
    ensures
        r == line_end(output@, from as int),
        from <= r <= output@.len(),
        output@.len() <= usize::MAX,
{
    let n: usize = output.unicode_len();
    let mut i: usize = from;
    while i < n && output.get_char(i) != '\n'
        invariant
            from <= i <= n,
            n == output@.len(),
            line_end(output@, from as int) == line_end(output@, i as int),
        decreases n - i,
    {
        i += 1;
    }
    i
}

/// Whether a text begins with another.
fn starts_with(s: &str, prefix: &str) -> (r: bool)
    ensures
        r == (prefix@.len() <= s@.len() && s@.subrange(0, prefix@.len() as int) == prefix@),
{
    let n: usize = prefix.unicode_len();
    if n > s.unicode_len() {
        return false;
    }
    text::same_text(s.substring_char(0, n), prefix)
}

/// The value of a field in what the system says of itself.
pub fn profile_field(output: &str, name: &str) -> (r: Option<String>)
    ensures
        match r {
            Some(value) => spec_profile_field(output@, name@, 0) == Some(value@),
            None => spec_profile_field(output@, name@, 0) is None,
        },
{
    let n: usize = output.unicode_len();
    let mut from: usize = 0;
    while from < n
        invariant
            n == output@.len(),
            from <= n,
            spec_profile_field(output@, name@, 0) == spec_profile_field(
                output@,
                name@,
                from as int,
            ),
        decreases n - from,
    {
        let end: usize = find_line_end(output, from);
        let line = trim(output.substring_char(from, end));
        if starts_with(line, name) {
            let rest = line.substring_char(name.unicode_len(), line.unicode_len());
            return Some(trim(rest).to_owned());
        }
        if end >= n {
            return None;
        }
        from = end + 1;
    }
    None
}

/// A value, or a default where there is none or it is empty.
pub fn value_or_unknown(value: &str) -> (r: String)
    ensures
        r@ == if text::spec_trim(value@).len() == 0 {
            "unknown"@
        } else {
            text::spec_trim(value@)
        },
{
    let trimmed = trim(value);
    if trimmed.is_empty() {
        "unknown".to_owned()
    } else {
        trimmed.to_owned()
    }
}

/// What is said of the machine: its model, its chip and its architecture; and its memory.
pub fn hardware_summary(profile: &str, architecture: &str) -> (r: (String, String))
    ensures
        ({
            let model = match spec_profile_field(profile@, "Model Name:"@, 0) {
                Some(model) => model,
                None => "Mac"@,
            };
            let chip = match spec_profile_field(profile@, "Chip:"@, 0) {
                Some(chip) => chip,
                None => architecture@,
            };
            &&& r.0@ == model + " | "@ + chip + " | "@ + architecture@
            &&& r.1@ == match spec_profile_field(profile@, "Memory:"@, 0) {
                Some(memory) => memory,
                None => "unknown"@,
            }
        }),
{
    let model = match profile_field(profile, "Model Name:") {
        Some(model) => model,
        None => "Mac".to_owned(),
    };
    let chip = match profile_field(profile, "Chip:") {
        Some(chip) => chip,
        None => architecture.to_owned(),
    };
    let memory = match profile_field(profile, "Memory:") {
        Some(memory) => memory,
        None => "unknown".to_owned(),
    };
    (model.concat(" | ").concat(chip.as_str()).concat(" | ").concat(architecture), memory)
}

/// The ninety-fifth hundredth is the first time, from the least up, that at least ninety-five of a
/// hundred times do not exceed.
pub proof fn law_ninety_five_of_a_hundred(n: int)
    requires
        n > 0,
    ensures
        0 <= p95_index(n) < n,
        95 * n <= 100 * (p95_index(n) + 1),
        100 * p95_index(n) < 95 * n,
{
}

} // verus!
