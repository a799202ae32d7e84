//! Series for reporting: running totals of rewards and thinned-out series for
//! charts.

use vstd::prelude::*;
use crate::policy::ints;
use crate::transition::prefix_total;

verus! {

/// The sum of the first `n` entries of a series of machine integers is within `n`
/// times the largest magnitude that such an integer has.
pub proof fn lemma_prefix_total_fits(series: Seq<i64>, n: int)
    requires
        0 <= n <= series.len(),
    ensures
        -(n * 0x8000_0000_0000_0000) <= prefix_total(ints(series), n) <= n * 0x8000_0000_0000_0000,
    decreases n,
{
    if n > 0 {
        lemma_prefix_total_fits(series, n - 1);
        assert(ints(series)[n - 1] == series[n - 1]);
        assert(n * 0x8000_0000_0000_0000 == (n - 1) * 0x8000_0000_0000_0000 + 0x8000_0000_0000_0000)
            by (nonlinear_arith);
    } else {
        assert(0 * 0x8000_0000_0000_0000 == 0) by (nonlinear_arith);
    }
}

/// The running total of a series of rewards: entry `k` is the sum of the rewards
/// up to and including the one at `k`.
pub fn cumulative_rewards(rewards: &Vec<i64>) -> (totals: Vec<i128>)
    ensures
        totals@.len() == rewards@.len(),
        forall|k: int|
            0 <= k < totals@.len() ==> #[trigger] totals@[k] == prefix_total(ints(rewards@), k + 1),
{
    let ghost model = ints(rewards@);
    let n = rewards.len();
    let mut totals: Vec<i128> = Vec::new();
    let mut sum: i128 = 0;
    let mut k: usize = 0;
    while k < n
        invariant
            model == ints(rewards@),
            n == rewards@.len(),
            0 <= k <= n,
            sum == prefix_total(model, k as int),
            totals@.len() == k,
            forall|j: int| 0 <= j < k ==> #[trigger] totals@[j] == prefix_total(model, j + 1),
        decreases n - k,
    {
        proof {
            lemma_prefix_total_fits(rewards@, k as int);
            lemma_prefix_total_fits(rewards@, k + 1);
            assert(model[k as int] == rewards@[k as int]);
            assert((k + 1) * 0x8000_0000_0000_0000 <= 0xffff_ffff_ffff_ffff * 0x8000_0000_0000_0000)
                by (nonlinear_arith)
                requires
                    0 <= k + 1 <= 0xffff_ffff_ffff_ffff,
            ;
        }
        sum = sum + rewards[k] as i128;
        totals.push(sum);
        k = k + 1;
    }
    totals
}

/// Entry `k` of `sample` is the entry of `data` at the place `k * stride`,
/// together with that place.
pub open spec fn sampled<T>(data: Seq<T>, stride: int, sample: Seq<(usize, T)>, k: int) -> bool {
    &&& k * stride < data.len()
    &&& sample[k].0 == k * stride
    &&& sample[k].1 == data[k * stride]
}

/// Every `stride`-th entry of a series, each with the place it had: the entries
/// at the places `0`, `stride`, `2 * stride` and so on.
pub fn downsample<T: Copy>(data: &[T], stride: usize) -> (sample: Vec<(usize, T)>)
    requires
        stride > 0,
    ensures
        forall|k: int| 0 <= k < sample@.len() ==> sampled(data@, stride as int, sample@, k),
        sample@.len() * stride >= data@.len(),
        sample@.len() > 0 ==> (sample@.len() - 1) * stride < data@.len(),
{
    let n = data.len();
    let mut sample: Vec<(usize, T)> = Vec::new();
    let mut i: usize = 0;
    proof {
        assert(0 * stride == 0) by (nonlinear_arith);
    }
    while i < n
        invariant
            n == data@.len(),
            stride > 0,
            i == sample@.len() * stride || (i == n && sample@.len() * stride >= n),
            forall|k: int| 0 <= k < sample@.len() ==> sampled(data@, stride as int, sample@, k),
            sample@.len() > 0 ==> (sample@.len() - 1) * stride < n,
        decreases n - i,
    {
        let ghost len = sample@.len() as int;
        let ghost before = sample@;
        sample.push((i, data[i]));
        proof {
            assert((len + 1) * stride == len * stride + stride) by (nonlinear_arith);
            assert forall|j: int| 0 <= j < sample@.len() implies sampled(
                data@,
                stride as int,
                sample@,
                j,
            ) by {
                if j < len {
                    assert(sampled(data@, stride as int, before, j));
                    assert(sample@[j] == before[j]);
                }
            }
        }
        if n - i <= stride {
            i = n;
        } else {
            i = i + stride;
        }
    }
    sample
}

} // verus!
