//! Running minimum and maximum of cycle or latency samples.
use vstd::prelude::*;

verus! {

/// The smaller of two samples.
pub open spec fn min_u64(a: u64, b: u64) -> u64 {
    if a <= b {
        a
    } else {
        b
    }
}

/// The larger of two samples.
pub open spec fn max_u64(a: u64, b: u64) -> u64 {
    if a >= b {
        a
    } else {
        b
    }
}

/// Fold one sample `v` into a running minimum and maximum.
pub fn fold_minmax(min: &mut u64, max: &mut u64, v: u64)
    ensures
        *final(min) == min_u64(*old(min), v),
        *final(max) == max_u64(*old(max), v),
{
    if v < *min {
        *min = v;
    }
    if v > *max {
        *max = v;
    }
}

/// Folding samples into a running minimum and maximum that start at
/// `u64::MAX` and 0 yields exactly the smallest and the largest sample.
pub open spec fn fold_all(min0: u64, max0: u64, samples: Seq<u64>) -> (u64, u64)
    decreases samples.len(),
{
    if samples.len() == 0 {
        (min0, max0)
    } else {
        let (mn, mx) = fold_all(min0, max0, samples.drop_last());
        (min_u64(mn, samples.last()), max_u64(mx, samples.last()))
    }
}

/// After folding a non-empty sequence of samples from the initial
/// `(u64::MAX, 0)`, the minimum is a sample no larger than any sample and the
/// maximum a sample no smaller than any; in particular minimum <= maximum.
pub proof fn lemma_fold_all_extremes(samples: Seq<u64>)
    requires
        samples.len() > 0,
    ensures
        samples.contains(fold_all(u64::MAX, 0, samples).0),
        samples.contains(fold_all(u64::MAX, 0, samples).1),
        forall|i: int|
            0 <= i < samples.len() ==> fold_all(u64::MAX, 0, samples).0 <= #[trigger] samples[i]
                <= fold_all(u64::MAX, 0, samples).1,
    decreases samples.len(),
{
    let init = samples.drop_last();
    let last = samples.last();
    if init.len() == 0 {
        assert(samples[0] == last);
    } else {
        lemma_fold_all_extremes(init);
        let (mn, mx) = fold_all(u64::MAX, 0, init);
        assert(forall|i: int| 0 <= i < init.len() ==> init[i] == samples[i]);
        assert(samples[samples.len() - 1] == last);
        let j = choose|j: int| 0 <= j < init.len() && init[j] == mn;
        assert(samples[j] == mn);
        let k = choose|k: int| 0 <= k < init.len() && init[k] == mx;
        assert(samples[k] == mx);
    }
}

} // verus!
