//! The figures that sum up a set of responses.

use crate::histogram::{histogram, is_histogram, Bucket};
use crate::order::{lemma_sorted_shape, sort_ascending, sorted};
use crate::request::Response;
use crate::stats::{
    get_median, get_nth_percentile, is_floor_sqrt, lemma_percentile_bounds,
    lemma_percentile_monotonic, mean_nanos, mean_of, median_of, percentile_of, std_dev_nanos,
    sum_nanos, total, variance_of,
};
use vstd::prelude::*;
use vstd::seq_lib::group_to_multiset_ensures;

verus! {

/// There are no responses to sum up.
#[derive(Clone, Copy, Debug, PartialEq, Eq, Structural)]
pub struct EmptyResultError;

impl EmptyResultError {
    /// The notice to show in place of a summary.
    pub fn message(&self) -> (text: &'static str)
        ensures
            text@ == "no result values"@,
    {
        "no result values"
    }
}

/// The figures of a set of responses. Times are in nanoseconds.
#[derive(Clone, Debug)]
pub struct Summary {
    /// The number of responses.
    pub count: usize,
    /// The first response with the shortest latency.
    pub min: Response,
    /// The first response with the longest latency.
    pub max: Response,
    /// The response that completed first.
    pub first: Response,
    /// The sum of the latencies.
    pub sum: u128,
    /// The mean latency, rounded down.
    pub mean: u64,
    /// The population standard deviation of the latencies, rounded down.
    pub std_dev: u64,
    /// The median latency.
    pub median: u64,
    /// The 90th percentile of the latencies.
    pub pct_90: u64,
    /// The 95th percentile of the latencies.
    pub pct_95: u64,
    /// The 99th percentile of the latencies.
    pub pct_99: u64,
    /// The status codes with their counts, in ascending order of the codes.
    pub histogram: Vec<Bucket>,
}

/// The latencies of `samples`, in their order.
pub open spec fn latencies(samples: Seq<Response>) -> Seq<u64> {
    Seq::new(samples.len(), |i: int| samples[i].took)
}

/// The place of the first smallest value of `xs`.
pub open spec fn first_least(xs: Seq<u64>) -> int
    decreases xs.len(),
{
    if xs.len() <= 1 {
        0
    } else {
        let rest = first_least(xs.drop_last());
        if xs.last() < xs[rest] {
            xs.len() - 1
        } else {
            rest
        }
    }
}

/// The place of the first largest value of `xs`.
pub open spec fn first_greatest(xs: Seq<u64>) -> int
    decreases xs.len(),
{
    if xs.len() <= 1 {
        0
    } else {
        let rest = first_greatest(xs.drop_last());
        if xs.last() > xs[rest] {
            xs.len() - 1
        } else {
            rest
        }
    }
}

/// Whether `summary` holds the figures of `samples`, of which there is at
/// least one. Order statistics are taken on the latencies in ascending
/// order; `first` on the responses as they came.
pub open spec fn is_summary(summary: Summary, samples: Seq<Response>) -> bool {
    let times = latencies(samples);
    let ordered = sorted(times);
    &&& samples.len() > 0
    &&& summary.count == samples.len()
    &&& summary.min == samples[first_least(times)]
    &&& summary.max == samples[first_greatest(times)]
    &&& summary.first == samples[0]
    &&& summary.sum == total(times)
    &&& summary.mean == mean_of(times)
    &&& is_floor_sqrt(summary.std_dev as nat, variance_of(times))
    &&& summary.median == median_of(ordered)
    &&& summary.pct_90 == percentile_of(ordered, 90, 100)
    &&& summary.pct_95 == percentile_of(ordered, 95, 100)
    &&& summary.pct_99 == percentile_of(ordered, 99, 100)
    &&& is_histogram(summary.histogram@, samples)
}

/// The first smallest value of `xs` is at most every value, and less than
/// those before it; the first largest is at least every value, and more
/// than those before it.
pub proof fn lemma_first_extremes(xs: Seq<u64>)
    requires
        xs.len() > 0,
    ensures
        0 <= first_least(xs) < xs.len(),
        0 <= first_greatest(xs) < xs.len(),
        forall|j: int| 0 <= j < xs.len() ==> xs[first_least(xs)] <= #[trigger] xs[j],
        forall|j: int| 0 <= j < first_least(xs) ==> xs[first_least(xs)] < #[trigger] xs[j],
        forall|j: int| 0 <= j < xs.len() ==> xs[first_greatest(xs)] >= #[trigger] xs[j],
        forall|j: int| 0 <= j < first_greatest(xs) ==> xs[first_greatest(xs)] > #[trigger] xs[j],
    decreases xs.len(),
{
    if xs.len() > 1 {
        let rest = xs.drop_last();
        lemma_first_extremes(rest);
        assert forall|j: int| 0 <= j < rest.len() implies rest[j] == xs[j] by {}
    }
}

/// The latencies of `samples`, in their order.
pub fn latencies_of(samples: &Vec<Response>) -> (times: Vec<u64>)
    ensures
        times@ == latencies(samples@),
{
    let mut times: Vec<u64> = Vec::new();
    let mut i: usize = 0;
    while i < samples.len()
        invariant
            i <= samples.len(),
            times@ == latencies(samples@.subrange(0, i as int)),
        decreases samples.len() - i,
    {
        times.push(samples[i].took);
        i = i + 1;
        assert(times@ =~= latencies(samples@.subrange(0, i as int)));
    }
    assert(samples@.subrange(0, i as int) =~= samples@);
    times
}

/// The places of the first smallest and the first largest of `times`.
fn extremes(times: &Vec<u64>) -> (places: (usize, usize))
    requires
        times.len() > 0,
    ensures
        places.0 == first_least(times@),
        places.1 == first_greatest(times@),
        places.0 < times.len(),
        places.1 < times.len(),
{
    let mut least: usize = 0;
    let mut greatest: usize = 0;
    let mut i: usize = 1;
    assert(times@.subrange(0, 1).len() == 1);
    while i < times.len()
        invariant
            1 <= i <= times.len(),
            least < i,
            greatest < i,
            least == first_least(times@.subrange(0, i as int)),
            greatest == first_greatest(times@.subrange(0, i as int)),
        decreases times.len() - i,
    {
        proof {
            let next = times@.subrange(0, i + 1);
            assert(next.drop_last() =~= times@.subrange(0, i as int));
        }
        if times[i] < times[least] {
            least = i;
        }
        if times[i] > times[greatest] {
            greatest = i;
        }
        i = i + 1;
    }
    assert(times@.subrange(0, i as int) =~= times@);
    (least, greatest)
}

/// Sums up a set of responses, given in the order in which they completed.
/// Only an empty set has no summary.
pub fn summarize(samples: &Vec<Response>) -> (outcome: Result<Summary, EmptyResultError>)
    ensures
        outcome is Err <==> samples.len() == 0,
        outcome is Ok ==> is_summary(outcome->Ok_0, samples@),
{
    if samples.len() == 0 {
        return Err(EmptyResultError);
    }
    let times = latencies_of(samples);
    let ordered = sort_ascending(&times);
    let places = extremes(&times);
    let summary = Summary {
        count: samples.len(),
        min: samples[places.0],
        max: samples[places.1],
        first: samples[0],
        sum: sum_nanos(&times),
        mean: mean_nanos(&times),
        std_dev: std_dev_nanos(&times),
        median: get_median(&ordered),
        pct_90: get_nth_percentile(&ordered, 90, 100),
        pct_95: get_nth_percentile(&ordered, 95, 100),
        pct_99: get_nth_percentile(&ordered, 99, 100),
        histogram: histogram(samples),
    };
    Ok(summary)
}

/// The ends of the values in ascending order are the smallest and the
/// largest of the values.
pub proof fn lemma_sorted_ends(xs: Seq<u64>)
    requires
        xs.len() > 0,
    ensures
        sorted(xs).len() == xs.len(),
        sorted(xs).first() == xs[first_least(xs)],
        sorted(xs).last() == xs[first_greatest(xs)],
{
    broadcast use group_to_multiset_ensures;

    lemma_sorted_shape(xs);
    lemma_first_extremes(xs);
    let out = sorted(xs);
    let least = xs[first_least(xs)];
    let greatest = xs[first_greatest(xs)];
    assert(xs.contains(least));
    assert(xs.contains(greatest));
    assert(out.contains(out.first()));
    assert(out.contains(out.last()));
    assert(out.to_multiset().count(least) > 0);
    assert(out.to_multiset().count(greatest) > 0);
    assert(xs.to_multiset().count(out.first()) > 0);
    assert(xs.to_multiset().count(out.last()) > 0);
    assert(out.contains(least));
    assert(out.contains(greatest));
    assert(xs.contains(out.first()));
    assert(xs.contains(out.last()));
}

/// In every summary the figures stand in order: the shortest latency is at
/// most the median and the 90th percentile, the percentiles do not go down
/// from the 90th to the 99th, and none exceeds the longest latency.
pub proof fn lemma_summary_order(summary: Summary, samples: Seq<Response>)
    requires
        is_summary(summary, samples),
    ensures
        summary.min.took <= summary.median <= summary.max.took,
        summary.min.took <= summary.pct_90,
        summary.pct_90 <= summary.pct_95,
        summary.pct_95 <= summary.pct_99,
        summary.pct_99 <= summary.max.took,
        summary.min.took <= summary.mean <= summary.max.took,
{
    let times = latencies(samples);
    let ordered = sorted(times);
    lemma_sorted_shape(times);
    lemma_sorted_ends(times);
    lemma_first_extremes(times);
    lemma_percentile_bounds(ordered, 90, 100);
    lemma_percentile_bounds(ordered, 99, 100);
    lemma_percentile_monotonic(ordered, 90, 100, 95, 100);
    lemma_percentile_monotonic(ordered, 95, 100, 99, 100);
    let n = ordered.len() as int;
    assert(ordered.first() <= median_of(ordered) <= ordered.last()) by {
        if n % 2 == 1 {
            assert(ordered[0] <= ordered[n / 2] || n / 2 == 0);
            assert(ordered[n / 2] <= ordered[n - 1] || n / 2 == n - 1);
        } else {
            assert(ordered[0] <= ordered[n / 2 - 1] || n / 2 - 1 == 0);
            assert(ordered[n / 2 - 1] <= ordered[n / 2]);
            assert(ordered[n / 2] <= ordered[n - 1] || n / 2 == n - 1);
        }
    }
    lemma_mean_between(times, times[first_least(times)], times[first_greatest(times)]);
}

/// The mean of values that all lie between `low` and `high` lies there too.
pub proof fn lemma_mean_between(xs: Seq<u64>, low: u64, high: u64)
    requires
        xs.len() > 0,
        forall|i: int| 0 <= i < xs.len() ==> low <= #[trigger] xs[i] <= high,
    ensures
        low <= mean_of(xs) <= high,
{
    lemma_total_between(xs, low, high);
    let n = xs.len() as int;
    let sum = total(xs) as int;
    vstd::arithmetic::div_mod::lemma_fundamental_div_mod(sum, n);
    let q = sum / n;
    let r = sum % n;
    assert(low <= q <= high) by (nonlinear_arith)
        requires
            sum == n * q + r,
            0 <= r < n,
            n * low <= sum <= n * high,
    ;
}

proof fn lemma_total_between(xs: Seq<u64>, low: u64, high: u64)
    requires
        forall|i: int| 0 <= i < xs.len() ==> low <= #[trigger] xs[i] <= high,
    ensures
        xs.len() * low <= total(xs) <= xs.len() * high,
    decreases xs.len(),
{
    if xs.len() > 0 {
        let rest = xs.drop_last();
        assert forall|i: int| 0 <= i < rest.len() implies low <= #[trigger] rest[i] <= high by {
            assert(rest[i] == xs[i]);
        }
        lemma_total_between(rest, low, high);
        let k = rest.len();
        assert((k + 1) * low == k * low + low && (k + 1) * high == k * high + high)
            by (nonlinear_arith);
        assert(xs.len() == k + 1);
        assert(low <= xs[xs.len() - 1] <= high);
    } else {
        assert(0 * low == 0 && 0 * high == 0) by (nonlinear_arith);
    }
}

} // verus!
