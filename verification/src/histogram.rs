//! How often each status code occurs among the responses.
//!
//! The codes are counted in a hash map and then listed in ascending order.

use crate::fixed::{pow10, scaled};
use crate::request::Response;
use crate::stats::round_half_up;
use std::collections::HashMap;
use vstd::arithmetic::div_mod::lemma_fundamental_div_mod;
use vstd::prelude::*;

verus! {

/// A status code with the number of responses that have it.
#[derive(Clone, Copy, Debug, PartialEq, Eq, Structural)]
pub struct Bucket {
    pub status: u16,
    pub count: usize,
}

/// The number of responses with status `code`.
pub open spec fn occurrences(samples: Seq<Response>, code: u16) -> nat
    decreases samples.len(),
{
    if samples.len() == 0 {
        0
    } else {
        occurrences(samples.drop_last(), code) + if samples.last().status == code {
            1nat
        } else {
            0nat
        }
    }
}

/// The sum of the counts of `buckets`.
pub open spec fn bucket_total(buckets: Seq<Bucket>) -> nat
    decreases buckets.len(),
{
    if buckets.len() == 0 {
        0
    } else {
        bucket_total(buckets.drop_last()) + buckets.last().count as nat
    }
}

/// Whether one of `buckets` is for status `code`.
pub open spec fn has_bucket(buckets: Seq<Bucket>, code: u16) -> bool {
    exists|i: int| 0 <= i < buckets.len() && (#[trigger] buckets[i]).status == code
}

/// Whether the codes of `buckets` go strictly up.
pub open spec fn codes_ascend(buckets: Seq<Bucket>) -> bool {
    forall|i: int, j: int|
        0 <= i < j < buckets.len() ==> (#[trigger] buckets[i]).status < (#[trigger] buckets[j]).status
}

/// Whether each of `buckets` counts the occurrences of its code in
/// `samples`, of which there is at least one.
pub open spec fn counts_match(buckets: Seq<Bucket>, samples: Seq<Response>) -> bool {
    forall|i: int|
        0 <= i < buckets.len() ==> (#[trigger] buckets[i]).count > 0 && buckets[i].count
            == occurrences(samples, buckets[i].status)
}

/// Whether every status code of `samples` has one of `buckets`.
pub open spec fn codes_covered(buckets: Seq<Bucket>, samples: Seq<Response>) -> bool {
    forall|code: u16| #[trigger] occurrences(samples, code) > 0 ==> has_bucket(buckets, code)
}

/// Whether `buckets` is the histogram of `samples`: one bucket for each
/// status code that occurs, in ascending order of the codes, each with the
/// number of its occurrences.
pub open spec fn is_histogram(buckets: Seq<Bucket>, samples: Seq<Response>) -> bool {
    &&& codes_ascend(buckets)
    &&& counts_match(buckets, samples)
    &&& codes_covered(buckets, samples)
}

/// No status occurs more often than there are responses.
pub proof fn lemma_occurrences_bound(samples: Seq<Response>, code: u16)
    ensures
        occurrences(samples, code) <= samples.len(),
    decreases samples.len(),
{
    if samples.len() > 0 {
        lemma_occurrences_bound(samples.drop_last(), code);
    }
}

/// Whether `counts` holds the number of occurrences of each status code
/// that occurs in `samples`, and holds no other code.
pub open spec fn counts_of(counts: Map<u16, usize>, samples: Seq<Response>) -> bool {
    forall|code: u16|
        (#[trigger] counts.contains_key(code) <==> occurrences(samples, code) > 0) && (
        counts.contains_key(code) ==> counts[code] == occurrences(samples, code))
}

/// Counts the status codes of `samples`.
fn count_codes(samples: &Vec<Response>) -> (counts: HashMap<u16, usize>)
    ensures
        counts_of(counts@, samples@),
{
    broadcast use vstd::std_specs::hash::group_hash_axioms;

    let mut counts: HashMap<u16, usize> = HashMap::new();
    let mut i: usize = 0;
    assert(samples@.subrange(0, 0) =~= Seq::<Response>::empty());
    while i < samples.len()
        invariant
            i <= samples.len(),
            counts_of(counts@, samples@.subrange(0, i as int)),
        decreases samples.len() - i,
    {
        let code: u16 = samples[i].status;
        let ghost seen = samples@.subrange(0, i as int);
        let ghost next = samples@.subrange(0, i + 1);
        let ghost before = counts@;
        let so_far: usize = match counts.get(&code) {
            Some(n) => *n,
            None => 0,
        };
        proof {
            assert(next.drop_last() =~= seen);
            lemma_occurrences_bound(seen, code);
            assert(before.contains_key(code) <==> occurrences(seen, code) > 0);
            assert(so_far == occurrences(seen, code));
        }
        counts.insert(code, so_far + 1);
        proof {
            assert forall|other: u16|
                (#[trigger] counts@.contains_key(other) <==> occurrences(next, other) > 0) && (
                counts@.contains_key(other) ==> counts@[other] == occurrences(
                    next,
                    other,
                )) by {
                if other != code {
                    assert(before.contains_key(other) <==> occurrences(seen, other) > 0);
                }
            }
        }
        i = i + 1;
    }
    assert(samples@.subrange(0, i as int) =~= samples@);
    counts
}

/// The histogram of the status codes of `samples`.
pub fn histogram(samples: &Vec<Response>) -> (buckets: Vec<Bucket>)
    ensures
        is_histogram(buckets@, samples@),
        bucket_total(buckets@) == samples.len(),
{
    broadcast use vstd::std_specs::hash::group_hash_axioms;

    let counts = count_codes(samples);
    let mut buckets: Vec<Bucket> = Vec::new();
    let mut next: u32 = 0;
    while next <= 0xFFFF
        invariant
            next <= 0x1_0000,
            counts_of(counts@, samples@),
            codes_ascend(buckets@),
            counts_match(buckets@, samples@),
            forall|k: int| 0 <= k < buckets@.len() ==> (#[trigger] buckets@[k]).status < next,
            forall|code: u16|
                code < next && #[trigger] occurrences(samples@, code) > 0 ==> has_bucket(
                    buckets@,
                    code,
                ),
        decreases 0x1_0000 - next,
    {
        let code: u16 = next as u16;
        let ghost before = buckets@;
        match counts.get(&code) {
            Some(n) => {
                assert(counts@.contains_key(code));
                buckets.push(Bucket { status: code, count: *n });
                proof {
                    let after = buckets@;
                    assert(after[before.len() as int].status == code);
                    assert forall|other: u16|
                        other < next + 1 && #[trigger] occurrences(samples@, other)
                            > 0 implies has_bucket(after, other) by {
                        if other != code {
                            assert(has_bucket(before, other));
                            let k = choose|k: int|
                                0 <= k < before.len() && (#[trigger] before[k]).status == other;
                            assert(after[k].status == other);
                        }
                    }
                    assert forall|a: int, b: int| 0 <= a < b < after.len() implies (
                    #[trigger] after[a]).status < (#[trigger] after[b]).status by {
                        assert(after[a] == before[a]);
                        if b < before.len() {
                            assert(after[b] == before[b]);
                        }
                    }
                    assert forall|k: int| 0 <= k < after.len() implies (#[trigger] after[k]).count
                        > 0 && after[k].count == occurrences(samples@, after[k].status) by {
                        if k < before.len() {
                            assert(after[k] == before[k]);
                        }
                    }
                }
            },
            None => {
                assert(!counts@.contains_key(code));
                assert(occurrences(samples@, code) == 0);
            },
        }
        next = next + 1;
    }
    proof {
        assert forall|code: u16| #[trigger] occurrences(samples@, code) > 0 implies has_bucket(
            buckets@,
            code,
        ) by {}
        lemma_histogram_total(buckets@, samples@);
    }
    buckets
}

/// The largest count among `buckets`, zero where there are none.
pub open spec fn largest_count(buckets: Seq<Bucket>) -> nat
    decreases buckets.len(),
{
    if buckets.len() == 0 {
        0
    } else {
        let rest = largest_count(buckets.drop_last());
        if buckets.last().count > rest {
            buckets.last().count as nat
        } else {
            rest
        }
    }
}

/// The largest count among `buckets`.
pub fn max_count(buckets: &Vec<Bucket>) -> (largest: usize)
    ensures
        largest == largest_count(buckets@),
{
    let mut largest: usize = 0;
    let mut i: usize = 0;
    assert(buckets@.subrange(0, 0) =~= Seq::<Bucket>::empty());
    while i < buckets.len()
        invariant
            i <= buckets.len(),
            largest == largest_count(buckets@.subrange(0, i as int)),
        decreases buckets.len() - i,
    {
        proof {
            let next = buckets@.subrange(0, i + 1);
            assert(next.drop_last() =~= buckets@.subrange(0, i as int));
        }
        if buckets[i].count > largest {
            largest = buckets[i].count;
        }
        i = i + 1;
    }
    assert(buckets@.subrange(0, i as int) =~= buckets@);
    largest
}

/// The sum, over `buckets`, of the occurrences of each bucket's code.
pub open spec fn covered_total(buckets: Seq<Bucket>, samples: Seq<Response>) -> nat
    decreases buckets.len(),
{
    if buckets.len() == 0 {
        0
    } else {
        covered_total(buckets.drop_last(), samples) + occurrences(samples, buckets.last().status)
    }
}

/// The number of `buckets` that are for status `code`.
pub open spec fn hits(buckets: Seq<Bucket>, code: u16) -> nat
    decreases buckets.len(),
{
    if buckets.len() == 0 {
        0
    } else {
        hits(buckets.drop_last(), code) + if buckets.last().status == code {
            1nat
        } else {
            0nat
        }
    }
}

proof fn lemma_counts_are_covered(buckets: Seq<Bucket>, samples: Seq<Response>)
    requires
        counts_match(buckets, samples),
    ensures
        bucket_total(buckets) == covered_total(buckets, samples),
    decreases buckets.len(),
{
    if buckets.len() > 0 {
        let rest = buckets.drop_last();
        assert forall|i: int| 0 <= i < rest.len() implies (#[trigger] rest[i]).count > 0
            && rest[i].count == occurrences(samples, rest[i].status) by {
            assert(rest[i] == buckets[i]);
        }
        lemma_counts_are_covered(rest, samples);
        assert(buckets.last() == buckets[buckets.len() - 1]);
    }
}

proof fn lemma_covered_step(buckets: Seq<Bucket>, samples: Seq<Response>, x: Response)
    ensures
        covered_total(buckets, samples.push(x)) == covered_total(buckets, samples) + hits(
            buckets,
            x.status,
        ),
    decreases buckets.len(),
{
    if buckets.len() > 0 {
        lemma_covered_step(buckets.drop_last(), samples, x);
        assert(samples.push(x).drop_last() =~= samples);
    }
}

proof fn lemma_covered_none(buckets: Seq<Bucket>)
    ensures
        covered_total(buckets, Seq::<Response>::empty()) == 0,
    decreases buckets.len(),
{
    if buckets.len() > 0 {
        lemma_covered_none(buckets.drop_last());
    }
}

proof fn lemma_no_hits(buckets: Seq<Bucket>, code: u16)
    requires
        !has_bucket(buckets, code),
    ensures
        hits(buckets, code) == 0,
    decreases buckets.len(),
{
    if buckets.len() > 0 {
        let rest = buckets.drop_last();
        assert(buckets[buckets.len() - 1].status != code);
        if has_bucket(rest, code) {
            let k = choose|k: int| 0 <= k < rest.len() && (#[trigger] rest[k]).status == code;
            assert(buckets[k].status == code);
        }
        lemma_no_hits(rest, code);
    }
}

proof fn lemma_one_hit(buckets: Seq<Bucket>, code: u16)
    requires
        codes_ascend(buckets),
        has_bucket(buckets, code),
    ensures
        hits(buckets, code) == 1,
    decreases buckets.len(),
{
    let k = choose|k: int| 0 <= k < buckets.len() && (#[trigger] buckets[k]).status == code;
    let rest = buckets.drop_last();
    let last = buckets.len() - 1;
    assert forall|i: int, j: int| 0 <= i < j < rest.len() implies (#[trigger] rest[i]).status < (
    #[trigger] rest[j]).status by {
        assert(rest[i] == buckets[i] && rest[j] == buckets[j]);
    }
    if buckets[last].status == code {
        if has_bucket(rest, code) {
            let m = choose|m: int| 0 <= m < rest.len() && (#[trigger] rest[m]).status == code;
            assert(buckets[m].status < buckets[last].status);
        }
        lemma_no_hits(rest, code);
    } else {
        assert(rest[k].status == code);
        lemma_one_hit(rest, code);
    }
}

proof fn lemma_covered_is_all(buckets: Seq<Bucket>, samples: Seq<Response>)
    requires
        codes_ascend(buckets),
        codes_covered(buckets, samples),
    ensures
        covered_total(buckets, samples) == samples.len(),
    decreases samples.len(),
{
    if samples.len() == 0 {
        assert(samples =~= Seq::<Response>::empty());
        lemma_covered_none(buckets);
    } else {
        let rest = samples.drop_last();
        let x = samples.last();
        assert(samples =~= rest.push(x));
        assert forall|code: u16| #[trigger] occurrences(rest, code) > 0 implies has_bucket(
            buckets,
            code,
        ) by {
            assert(occurrences(samples, code) > 0);
        }
        lemma_covered_is_all(buckets, rest);
        lemma_covered_step(buckets, rest, x);
        assert(occurrences(samples, x.status) > 0);
        lemma_one_hit(buckets, x.status);
    }
}

/// The counts of a histogram sum to the number of responses.
pub proof fn lemma_histogram_total(buckets: Seq<Bucket>, samples: Seq<Response>)
    requires
        is_histogram(buckets, samples),
    ensures
        bucket_total(buckets) == samples.len(),
{
    lemma_counts_are_covered(buckets, samples);
    lemma_covered_is_all(buckets, samples);
}

/// The share of `count` in `all`, in hundredths of a percent, rounded to
/// the nearest: what a histogram line shows with two fraction digits.
pub open spec fn share_points(count: nat, all: nat) -> nat
    recommends
        all > 0,
{
    scaled(count * 100, all, 2)
}

/// The sum of the shares of `buckets`, in hundredths of a percent.
pub open spec fn shares_total(buckets: Seq<Bucket>, all: nat) -> nat
    decreases buckets.len(),
{
    if buckets.len() == 0 {
        0
    } else {
        shares_total(buckets.drop_last(), all) + share_points(buckets.last().count as nat, all)
    }
}

proof fn lemma_shares_near_counts(buckets: Seq<Bucket>, all: nat)
    requires
        all > 0,
    ensures
        (2 * all) * shares_total(buckets, all) <= 20000 * bucket_total(buckets) + buckets.len()
            * all,
        (2 * all) * shares_total(buckets, all) + buckets.len() * all >= 20000 * bucket_total(
            buckets,
        ),
    decreases buckets.len(),
{
    let m = 2 * all;
    if buckets.len() > 0 {
        let rest = buckets.drop_last();
        lemma_shares_near_counts(rest, all);
        let c = buckets.last().count as nat;
        let x = c * 100 * pow10(2);
        assert(pow10(2) == 100) by {
            reveal_with_fuel(pow10, 3);
        }
        let q = share_points(c, all);
        assert(q == round_half_up(x, all));
        lemma_fundamental_div_mod((2 * x + all) as int, m as int);
        let r = ((2 * x + all) as int) % (m as int);
        assert(x == 10000 * c) by (nonlinear_arith)
            requires
                x == c * 100 * 100,
        ;
        assert(m * q == 2 * x + all - r) by (nonlinear_arith)
            requires
                2 * x + all == m * q + r,
        ;
        let s0 = shares_total(rest, all);
        let b0 = bucket_total(rest);
        let k = rest.len();
        assert(m * (s0 + q) == m * s0 + m * q) by (nonlinear_arith);
        assert((k + 1) * all == k * all + all) by (nonlinear_arith);
        assert(20000 * (b0 + c) == 20000 * b0 + 2 * x);
        assert(buckets.len() == k + 1);
        assert(shares_total(buckets, all) == s0 + q);
        assert(bucket_total(buckets) == b0 + c);
    } else {
        assert(m * 0 == 0 && 0 * all == 0) by (nonlinear_arith);
    }
}

/// The shares of a histogram, as its lines show them, sum to one hundred
/// percent but for rounding: the sum is off by at most half a hundredth of
/// a percent for each bucket.
pub proof fn lemma_shares_sum(buckets: Seq<Bucket>, samples: Seq<Response>)
    requires
        is_histogram(buckets, samples),
        samples.len() > 0,
    ensures
        2 * shares_total(buckets, samples.len()) <= 20000 + buckets.len(),
        2 * shares_total(buckets, samples.len()) + buckets.len() >= 20000,
{
    let all = samples.len();
    let total = shares_total(buckets, all);
    let k = buckets.len();
    lemma_histogram_total(buckets, samples);
    lemma_shares_near_counts(buckets, all);
    assert(2 * total <= 20000 + k) by (nonlinear_arith)
        requires
            (2 * all) * total <= 20000 * all + k * all,
            all > 0,
    ;
    assert(2 * total + k >= 20000) by (nonlinear_arith)
        requires
            (2 * all) * total + k * all >= 20000 * all,
            all > 0,
    ;
}

} // verus!
