//! Sorting latencies into ascending order.

use vstd::prelude::*;
use vstd::relations::*;
use vstd::seq_lib::*;

verus! {

/// The order on latencies, as a relation.
pub open spec fn at_most() -> spec_fn(u64, u64) -> bool {
    |a: u64, b: u64| a <= b
}

/// Whether `s` never goes down from left to right.
pub open spec fn ascending(s: Seq<u64>) -> bool {
    forall|i: int, j: int| 0 <= i < j < s.len() ==> s[i] <= s[j]
}

/// The values of `s` in ascending order.
pub open spec fn sorted(s: Seq<u64>) -> Seq<u64> {
    s.sort_by(at_most())
}

/// `<=` on latencies is a total order.
pub proof fn lemma_at_most_total()
    ensures
        total_ordering(at_most()),
{
    let r = at_most();
    assert(reflexive(r));
    assert(antisymmetric(r));
    assert(transitive(r));
    assert(strongly_connected(r));
}

/// `sorted(s)` is ascending and holds each value as often as `s` does.
pub proof fn lemma_sorted_shape(s: Seq<u64>)
    ensures
        ascending(sorted(s)),
        sorted(s).to_multiset() == s.to_multiset(),
        sorted(s).len() == s.len(),
{
    broadcast use group_to_multiset_ensures;

    lemma_at_most_total();
    s.lemma_sort_by_ensures(at_most());
    let out = sorted(s);
    assert(sorted_by(out, at_most()));
    assert forall|i: int, j: int| 0 <= i < j < out.len() implies out[i] <= out[j] by {
        assert(at_most()(out[i], out[j]));
    }
    assert(out.to_multiset().len() == s.to_multiset().len());
}

/// An ascending sequence with the values of `s` is `sorted(s)`.
pub proof fn lemma_sorted_is_unique(s: Seq<u64>, out: Seq<u64>)
    requires
        ascending(out),
        out.to_multiset() == s.to_multiset(),
    ensures
        out == sorted(s),
{
    lemma_at_most_total();
    lemma_sorted_shape(s);
    let want = sorted(s);
    assert(sorted_by(out, at_most())) by {
        assert forall|i: int, j: int| 0 <= i < j < out.len() implies #[trigger] at_most()(
            out[i],
            out[j],
        ) by {}
    }
    assert(sorted_by(want, at_most())) by {
        assert forall|i: int, j: int| 0 <= i < j < want.len() implies #[trigger] at_most()(
            want[i],
            want[j],
        ) by {}
    }
    lemma_sorted_unique(out, want, at_most());
}

/// Merges two ascending runs into one.
fn merge(a: &Vec<u64>, b: &Vec<u64>) -> (out: Vec<u64>)
    requires
        ascending(a@),
        ascending(b@),
        a.len() + b.len() <= usize::MAX,
    ensures
        ascending(out@),
        out@.to_multiset() == a@.to_multiset().add(b@.to_multiset()),
{
    broadcast use {group_to_multiset_ensures, vstd::multiset::group_multiset_axioms};

    let mut out: Vec<u64> = Vec::new();
    let mut i: usize = 0;
    let mut j: usize = 0;
    proof {
        assert(a@.subrange(0, 0) =~= Seq::<u64>::empty());
        assert(b@.subrange(0, 0) =~= Seq::<u64>::empty());
        assert(out@.to_multiset() =~= a@.subrange(0, 0).to_multiset().add(
            b@.subrange(0, 0).to_multiset(),
        ));
    }
    while i < a.len() || j < b.len()
        invariant
            0 <= i <= a.len(),
            0 <= j <= b.len(),
            ascending(a@),
            ascending(b@),
            ascending(out@),
            out@.to_multiset() == a@.subrange(0, i as int).to_multiset().add(
                b@.subrange(0, j as int).to_multiset(),
            ),
            forall|k: int| 0 <= k < out@.len() && i < a.len() ==> out@[k] <= a@[i as int],
            forall|k: int| 0 <= k < out@.len() && j < b.len() ==> out@[k] <= b@[j as int],
        decreases a.len() - i + (b.len() - j),
    {
        let ghost before = out@;
        let take_left = if i < a.len() && j < b.len() {
            a[i] <= b[j]
        } else {
            i < a.len()
        };
        if take_left {
            let x = a[i];
            out.push(x);
            proof {
                let pa = a@.subrange(0, i as int);
                assert(a@.subrange(0, i + 1) =~= pa.push(x));
                assert(out@ =~= before.push(x));
                to_multiset_build(before, x);
                to_multiset_build(pa, x);
                assert(out@.to_multiset() =~= a@.subrange(0, i + 1).to_multiset().add(
                    b@.subrange(0, j as int).to_multiset(),
                ));
            }
            i = i + 1;
        } else {
            let x = b[j];
            out.push(x);
            proof {
                let pb = b@.subrange(0, j as int);
                assert(b@.subrange(0, j + 1) =~= pb.push(x));
                assert(out@ =~= before.push(x));
                to_multiset_build(before, x);
                to_multiset_build(pb, x);
                assert(out@.to_multiset() =~= a@.subrange(0, i as int).to_multiset().add(
                    b@.subrange(0, j + 1).to_multiset(),
                ));
            }
            j = j + 1;
        }
    }
    proof {
        assert(a@.subrange(0, i as int) =~= a@);
        assert(b@.subrange(0, j as int) =~= b@);
    }
    out
}

/// Sorts the part of `v` from `lo` up to `hi`, by splitting and merging.
fn sort_range(v: &Vec<u64>, lo: usize, hi: usize) -> (out: Vec<u64>)
    requires
        lo <= hi <= v.len(),
    ensures
        ascending(out@),
        out@.to_multiset() == v@.subrange(lo as int, hi as int).to_multiset(),
        out.len() == hi - lo,
    decreases hi - lo,
{
    broadcast use group_to_multiset_ensures;

    let ghost part = v@.subrange(lo as int, hi as int);
    if hi - lo <= 1 {
        let mut out: Vec<u64> = Vec::new();
        if hi - lo == 1 {
            out.push(v[lo]);
        }
        assert(out@ =~= part);
        return out;
    }
    let mid = lo + (hi - lo) / 2;
    let left = sort_range(v, lo, mid);
    let right = sort_range(v, mid, hi);
    let out = merge(&left, &right);
    proof {
        let l = v@.subrange(lo as int, mid as int);
        let r = v@.subrange(mid as int, hi as int);
        assert(part =~= l + r);
        lemma_multiset_commutative(l, r);
        assert(out@.to_multiset() =~= part.to_multiset());
        assert(out@.to_multiset().len() == part.to_multiset().len());
    }
    out
}

/// A copy of `values` in ascending order; `values` itself stays as it is.
pub fn sort_ascending(values: &Vec<u64>) -> (out: Vec<u64>)
    ensures
        out@ == sorted(values@),
        out.len() == values.len(),
{
    let out = sort_range(values, 0, values.len());
    proof {
        assert(values@.subrange(0, values.len() as int) =~= values@);
        lemma_sorted_is_unique(values@, out@);
    }
    out
}

} // verus!
