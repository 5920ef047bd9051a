//! The value side of a contestant's weighted samples: which values count,
//! and outlier trimming. Weights are carried through untouched, whatever
//! their type.
use vstd::prelude::*;
use crate::dates::DatedCompetitionResult;
use crate::events::DNF_VALUE;

verus! {

/// A historical value marks a failed attempt when negative, or when it is
/// the failure marker (or beyond it).
pub open spec fn is_failed_mark(v: i32) -> bool {
    v < 0 || v >= DNF_VALUE
}

/// The samples of `data` whose value satisfies `keep`, in order.
pub open spec fn kept<W>(data: Seq<(i32, W)>, keep: spec_fn(i32) -> bool) -> Seq<(i32, W)>
    decreases data.len(),
{
    if data.len() == 0 {
        Seq::empty()
    } else {
        let rest = kept(data.drop_last(), keep);
        if keep(data.last().0) {
            rest.push(data.last())
        } else {
            rest
        }
    }
}

/// The samples whose value lies within `lo..=hi` (`inside`), or outside it.
fn filter_values<W: Copy>(data: &Vec<(i32, W)>, lo: i32, hi: i32, inside: bool) -> (r: Vec<(i32, W)>)
    ensures
        r@ == kept(data@, |v: i32| (lo <= v <= hi) == inside),
{
    let mut out: Vec<(i32, W)> = Vec::new();
    let mut i: usize = 0;
    while i < data.len()
        invariant
            i <= data@.len(),
            out@ == kept(data@.take(i as int), |v: i32| (lo <= v <= hi) == inside),
        decreases data@.len() - i,
    {
        proof {
            assert(data@.take(i + 1).drop_last() == data@.take(i as int));
            assert(data@.take(i + 1).last() == data@[i as int]);
        }
        let item = data[i];
        if (lo <= item.0 && item.0 <= hi) == inside {
            out.push(item);
        }
        i = i + 1;
    }
    proof {
        assert(data@.take(data@.len() as int) == data@);
    }
    out
}

/// Remove the outliers above `threshold` (the mean plus twice the standard
/// deviation, cut to an integer); the rest keep their order.
pub fn trim_outliers<W: Copy>(data: Vec<(i32, W)>, threshold: i32) -> (r: Vec<(i32, W)>)
    ensures
        r@ == kept(data@, |v: i32| (i32::MIN <= v <= threshold) == true),
{
    filter_values(&data, i32::MIN, threshold, true)
}

/// The samples a distribution is fitted to: those with a positive value
/// below the failure marker.
pub fn valid_samples<W: Copy>(weighted: &Vec<(i32, W)>) -> (r: Vec<(i32, W)>)
    ensures
        r@ == kept(weighted@, |v: i32| (1 <= v <= DNF_VALUE - 1) == true),
{
    filter_values(weighted, 1, DNF_VALUE - 1, true)
}

/// Every value of every date, paired with its date's weight: `weights[d]`
/// is the weight of `results[d]`.
pub fn apply_weights<W: Copy>(results: &Vec<DatedCompetitionResult>, weights: &Vec<W>) -> (r: Vec<(i32, W)>)
    requires
        weights@.len() == results@.len(),
    ensures
        r@ == weighted_values(results@, weights@),
{
    let mut out: Vec<(i32, W)> = Vec::new();
    let mut d: usize = 0;
    while d < results.len()
        invariant
            d <= results@.len(),
            weights@.len() == results@.len(),
            out@ == weighted_values(results@.take(d as int), weights@.take(d as int)),
        decreases results@.len() - d,
    {
        let set = &results[d];
        let w = weights[d];
        let ghost base = out@;
        let mut i: usize = 0;
        while i < set.results.len()
            invariant
                i <= set.results@.len(),
                out@ == base + set.results@.take(i as int).map_values(|v: i32| (v, w)),
            decreases set.results@.len() - i,
        {
            proof {
                assert(set.results@.take(i + 1).map_values(|v: i32| (v, w)) == set.results@.take(
                    i as int,
                ).map_values(|v: i32| (v, w)).push((set.results@[i as int], w)));
            }
            out.push((set.results[i], w));
            i = i + 1;
        }
        proof {
            assert(set.results@.take(set.results@.len() as int) == set.results@);
            assert(results@.take(d + 1).drop_last() == results@.take(d as int));
            assert(weights@.take(d + 1).drop_last() == weights@.take(d as int));
            assert(results@.take(d + 1).last() == results@[d as int]);
            assert(weights@.take(d + 1).last() == weights@[d as int]);
        }
        d = d + 1;
    }
    proof {
        assert(results@.take(results@.len() as int) == results@);
        assert(weights@.take(weights@.len() as int) == weights@);
    }
    out
}

/// The values of the dates in order, each paired with its date's weight.
pub open spec fn weighted_values<W>(results: Seq<DatedCompetitionResult>, weights: Seq<W>) -> Seq<(i32, W)>
    decreases results.len(),
{
    if results.len() == 0 || weights.len() == 0 {
        Seq::empty()
    } else {
        let w = weights.last();
        weighted_values(results.drop_last(), weights.drop_last()) + results.last().results@.map_values(
            |v: i32| (v, w),
        )
    }
}

/// The samples that mark failed attempts.
pub fn failed_samples<W: Copy>(weighted: &Vec<(i32, W)>) -> (r: Vec<(i32, W)>)
    ensures
        r@ == kept(weighted@, |v: i32| (0 <= v <= DNF_VALUE - 1) == false),
        forall|i: int| 0 <= i < r@.len() ==> is_failed_mark(#[trigger] r@[i].0),
{
    let r = filter_values(weighted, 0, DNF_VALUE - 1, false);
    proof {
        lemma_kept_values(weighted@, |v: i32| (0 <= v <= DNF_VALUE - 1) == false);
    }
    r
}

/// Every kept value satisfies the test it was kept by.
proof fn lemma_kept_values<W>(data: Seq<(i32, W)>, keep: spec_fn(i32) -> bool)
    ensures
        forall|i: int| 0 <= i < kept(data, keep).len() ==> keep(#[trigger] kept(data, keep)[i].0),
    decreases data.len(),
{
    if data.len() > 0 {
        let rest = kept(data.drop_last(), keep);
        lemma_kept_values(data.drop_last(), keep);
        if keep(data.last().0) {
            assert forall|i: int| 0 <= i < rest.len() + 1 implies keep(
                #[trigger] rest.push(data.last())[i].0,
            ) by {
                if i < rest.len() {
                    assert(rest.push(data.last())[i] == rest[i]);
                }
            }
        }
    }
}

} // verus!
