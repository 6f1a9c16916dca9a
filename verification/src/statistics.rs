//! Order statistics of a metric over the selected definitions.
use vstd::prelude::*;
use vstd::seq_lib::{to_multiset_build, to_multiset_insert};

verus! {

/// Minimum, median, 95th percentile and maximum of one metric.
#[derive(Debug, Clone)]
pub struct MetricDistribution {
    pub metric: String,
    pub minimum: u32,
    pub median: u32,
    pub p95: u32,
    pub maximum: u32,
}

/// Whether a sequence is in nondecreasing order.
pub open spec fn nondecreasing(s: Seq<u32>) -> bool {
    forall|i: int, j: int| 0 <= i <= j < s.len() ==> s[i] <= s[j]
}

/// The position of the 95th percentile in a sorted list of `n` values: the nearest rank
/// `ceil(0.95 n)`, counted from one.
pub open spec fn p95_rank(n: int) -> int {
    (95 * n + 99) / 100 - 1
}

/// The values in nondecreasing order.
fn sorted(values: &Vec<u32>) -> (r: Vec<u32>)
    ensures
        nondecreasing(r@),
        r@.to_multiset() == values@.to_multiset(),
{
    let mut out: Vec<u32> = Vec::new();
    let mut i: usize = 0;
    proof {
        assert(values@.take(0) =~= out@);
    }
    while i < values.len()
        invariant
            i <= values@.len(),
            nondecreasing(out@),
            out@.to_multiset() == values@.take(i as int).to_multiset(),
        decreases values.len() - i,
    {
        let x = values[i];
        let mut at: usize = 0;
        while at < out.len() && out[at] <= x
            invariant
                at <= out@.len(),
                nondecreasing(out@),
                forall|k: int| 0 <= k < at ==> out@[k] <= x,
            decreases out.len() - at,
        {
            at += 1;
        }
        let ghost before = out@;
        proof {
            to_multiset_insert(before, at as int, x);
            assert(values@.take(i + 1) =~= values@.take(i as int).push(x));
            to_multiset_build(values@.take(i as int), x);
        }
        out.insert(at, x);
        proof {
            assert(out@ =~= before.insert(at as int, x));
            assert forall|a: int, b: int| 0 <= a <= b < out@.len() implies out@[a] <= out@[b] by {
                if at < before.len() {
                    assert(x < before[at as int]);
                }
            }
        }
        i += 1;
    }
    proof {
        assert(values@.take(i as int) =~= values@);
    }
    out
}

/// Whether `r` gives the smallest and largest of `values`, the lower median and the
/// nearest-rank 95th percentile.
pub open spec fn summarizes(values: Seq<u32>, r: MetricDistribution) -> bool {
    exists|s: Seq<u32>|
        {
            &&& #[trigger] s.to_multiset() == values.to_multiset()
            &&& nondecreasing(s)
            &&& s.len() == values.len()
            &&& r.minimum == s[0]
            &&& r.median == s[(s.len() - 1) / 2]
            &&& r.p95 == s[p95_rank(s.len() as int)]
            &&& r.maximum == s[s.len() - 1]
        }
}

/// The distribution of `values` (at least one): the smallest and largest value, the lower
/// median and the nearest-rank 95th percentile.
pub fn distribution(metric: &str, values: &Vec<u32>) -> (r: MetricDistribution)
    requires
        values@.len() > 0,
        values@.len() <= u32::MAX,
    ensures
        r.metric@ == metric@,
        summarizes(values@, r),
        exists|s: Seq<u32>|
            {
                &&& #[trigger] s.to_multiset() == values@.to_multiset()
                &&& nondecreasing(s)
                &&& s.len() == values@.len()
                &&& r.minimum == s[0]
                &&& r.median == s[(s.len() - 1) / 2]
                &&& r.p95 == s[p95_rank(s.len() as int)]
                &&& r.maximum == s[s.len() - 1]
            },
{
    let s = sorted(values);
    proof {
        s@.to_multiset_ensures();
        values@.to_multiset_ensures();
    }
    let n = s.len();
    let rank = ((n as u64 * 95 + 99) / 100 - 1) as usize;
    MetricDistribution {
        metric: metric.to_string(),
        minimum: s[0],
        median: s[(n - 1) / 2],
        p95: s[rank],
        maximum: s[n - 1],
    }
}

} // verus!
